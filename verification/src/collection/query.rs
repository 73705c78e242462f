//! Reading a collection: search, time travel, scrolling and recommendations.

use std::collections::HashSet;
use std::sync::Arc;

use vstd::prelude::*;
use vstd::std_specs::hash::*;
use vstd::string::StringExecFns;

use crate::collection;
use crate::collection::merge;
use crate::collection::points;
use crate::collection::points::StoredPoint;
use crate::collection::Collection;
use crate::collection::PointRecord;
use crate::collection::ScoredGlobal;
use crate::distance;
use crate::distance::Kernel;
use crate::error::CoreError;
use crate::id::GlobalId;
use crate::laws::recommend;
use crate::payload;
use crate::payload::Filter;
use crate::payload::FilterQuery;
use crate::payload::JsonValue;
use crate::payload::Payload;
use crate::ranking;
use crate::ranking::BoundedTopK;
use crate::ranking::Ranked;
use crate::segment::search;
use crate::segment::SealedSegment;
use crate::sorting;
use crate::vector;
use crate::version::manifest;
use crate::version::DeletionVector;
use crate::version::Manifest;
use crate::version::VersionSelector;

verus! {

broadcast use vstd::std_specs::hash::group_hash_axioms;

/// The points that are neither tombstoned nor rejected by the filter.
pub open spec fn live(
    deletions: Set<u64>,
    filter: Option<&Filter>,
    payloads: Map<u64, Arc<JsonValue>>,
) -> spec_fn(u64) -> bool {
    |g: u64|
        !deletions.contains(g) && match filter {
            Some(f) => f.accepts(payload::payload_of(payloads, g)),
            None => true,
        }
}

/// The registered segments of a list of ids, in its order; ids that are not registered
/// are passed over.
pub open spec fn registered<K: Kernel>(all: Map<u64, Arc<SealedSegment<K>>>, ids: Seq<u64>) -> Seq<
    Arc<SealedSegment<K>>,
>
    decreases ids.len(),
{
    if ids.len() == 0 {
        Seq::empty()
    } else {
        let rest = registered(all, ids.drop_last());
        if all.contains_key(ids.last()) {
            rest.push(all[ids.last()])
        } else {
            rest
        }
    }
}

/// Results without those of excluded points.
pub open spec fn without(results: Seq<ScoredGlobal>, excluded: Set<u64>) -> Seq<ScoredGlobal>
    decreases results.len(),
{
    if results.len() == 0 {
        Seq::empty()
    } else {
        let rest = without(results.drop_last(), excluded);
        if excluded.contains(results.last().id.0) {
            rest
        } else {
            rest.push(results.last())
        }
    }
}

/// The raw ids of a list of points, as a set.
pub open spec fn id_set(ids: Seq<GlobalId>) -> Set<u64> {
    Seq::new(ids.len(), |i: int| ids[i].0).to_set()
}

/// The payload of a point, shared.
pub open spec fn shared_payload(payloads: Map<u64, Arc<JsonValue>>, id: u64) -> Option<
    Arc<JsonValue>,
> {
    if payloads.contains_key(id) {
        Some(payloads[id])
    } else {
        None
    }
}

/// Whether a page holds the points `offset..offset + limit` of a list sorted by id, as far
/// as there are any, joined with their payloads.
pub open spec fn is_page<E>(
    page: Seq<PointRecord<E>>,
    all: Seq<(GlobalId, Seq<E>)>,
    payloads: Map<u64, Arc<JsonValue>>,
    offset: nat,
    limit: nat,
) -> bool {
    &&& page.len() == if offset >= all.len() {
        0
    } else if limit <= all.len() - offset {
        limit
    } else {
        (all.len() - offset) as nat
    }
    &&& exists|order: Seq<usize>|
        sorting::stable_order(points::ids_of(all), order) && (forall|i: int|
            0 <= i < page.len() ==> {
                let (id, vector) = all[#[trigger] order[offset + i] as int];
                &&& (#[trigger] page[i]).id == id
                &&& page[i].vector@ == vector
                &&& page[i].payload == shared_payload(payloads, id.0)
            })
}

/// Searches sealed segments one after the other into a collector.
fn search_segments<K: Kernel>(
    segments: &Vec<Arc<SealedSegment<K>>>,
    query: &[K::Elem],
    k: usize,
    deletions: &DeletionVector,
    filter: Option<&FilterQuery>,
    higher: bool,
) -> (merger: BoundedTopK)
    requires
        forall|i: int|
            0 <= i < segments@.len() ==> (#[trigger] segments@[i]).wf()
                && segments@[i].index.kernel.spec_dim() == query@.len(),
    ensures
        merger.wf(),
        merger.k == k,
        merger.higher_is_better == higher,
        merger.kept@ == ranking::top_k(
            merge::offered(
                segments@,
                query@,
                k as nat,
                search::visible(deletions.ids(), filter),
                higher,
            ),
            k as nat,
        ),
{
    let mut merger = BoundedTopK::new(k, higher);
    let ghost keeps = search::visible(deletions.ids(), filter);
    assert(merge::offered(segments@.take(0), query@, k as nat, keeps, higher) =~= Seq::<
        Ranked,
    >::empty());
    for i in 0..segments.len()
        invariant
            forall|i: int|
                0 <= i < segments@.len() ==> (#[trigger] segments@[i]).wf()
                    && segments@[i].index.kernel.spec_dim() == query@.len(),
            keeps == search::visible(deletions.ids(), filter),
            merger.wf(),
            merger.k == k,
            merger.higher_is_better == higher,
            merger.kept@ == ranking::top_k(
                merge::offered(segments@.take(i as int), query@, k as nat, keeps, higher),
                k as nat,
            ),
    {
        let found = segments[i].search(query, k, deletions, filter);
        merge::offer_all(&mut merger, &found);
        proof {
            assert(segments@.take(i + 1).drop_last() =~= segments@.take(i as int));
            assert(segments@.take(i + 1).last() == segments@[i as int]);
        }
    }
    assert(segments@.take(segments@.len() as int) =~= segments@);
    merger
}

/// Drops the results of excluded points.
fn drop_excluded(results: &Vec<ScoredGlobal>, excluded: &HashSet<u64>) -> (kept: Vec<ScoredGlobal>)
    ensures
        kept@ == without(results@, excluded@),
{
    let mut kept: Vec<ScoredGlobal> = Vec::new();
    assert(without(results@.take(0), excluded@) =~= Seq::<ScoredGlobal>::empty());
    for i in 0..results.len()
        invariant
            kept@ == without(results@.take(i as int), excluded@),
    {
        let r = results[i];
        proof {
            assert(results@.take(i + 1).drop_last() =~= results@.take(i as int));
        }
        if !excluded.contains(&r.id.get()) {
            kept.push(r);
        }
    }
    assert(results@.take(results@.len() as int) =~= results@);
    kept
}

/// The set of a list's raw ids.
fn collect_ids(ids: &[GlobalId]) -> (set: HashSet<u64>)
    ensures
        set@ == id_set(ids@),
{
    let mut set: HashSet<u64> = HashSet::new();
    let ghost raw = Seq::new(ids@.len(), |i: int| ids@[i].0);
    assert(set@ =~= raw.take(0).to_set());
    for i in 0..ids.len()
        invariant
            raw == Seq::new(ids@.len(), |i: int| ids@[i].0),
            set@ == raw.take(i as int).to_set(),
    {
        let _ = set.insert(ids[i].get());
        proof {
            let prefix = raw.take(i as int);
            let longer = raw.take(i + 1);
            assert(longer =~= prefix.push(raw[i as int]));
            assert forall|y: u64| longer.to_set().contains(y) <==> prefix.to_set().insert(
                raw[i as int],
            ).contains(y) by {
                if prefix.contains(y) {
                    assert(longer[prefix.index_of(y)] == y);
                }
                if y == raw[i as int] {
                    assert(longer[i as int] == y);
                }
                if longer.contains(y) {
                    let j = longer.index_of(y);
                    if j < i {
                        assert(prefix[j] == y);
                    }
                }
            }
            assert(longer.to_set() =~= prefix.to_set().insert(raw[i as int]));
        }
    }
    assert(raw.take(raw.len() as int) =~= raw);
    set
}

/// The registered segments a manifest references.
pub(crate) fn gather_segments<K: Kernel>(
    all: &std::collections::HashMap<u64, Arc<SealedSegment<K>>>,
    ids: &Vec<u64>,
) -> (segments: Vec<Arc<SealedSegment<K>>>)
    ensures
        segments@ == registered(all@, ids@),
{
    let mut segments: Vec<Arc<SealedSegment<K>>> = Vec::new();
    assert(registered(all@, ids@.take(0)) =~= Seq::<Arc<SealedSegment<K>>>::empty());
    for i in 0..ids.len()
        invariant
            segments@ == registered(all@, ids@.take(i as int)),
    {
        proof {
            assert(ids@.take(i + 1).drop_last() =~= ids@.take(i as int));
        }
        if let Some(seg) = all.get(&ids[i]) {
            segments.push(seg.clone());
        }
    }
    assert(ids@.take(ids@.len() as int) =~= ids@);
    segments
}

/// Whether a segment is registered, under whatever id.
pub open spec fn in_registry<K: Kernel>(
    all: Map<u64, Arc<SealedSegment<K>>>,
    segment: Arc<SealedSegment<K>>,
) -> bool {
    exists|id: u64| #[trigger] all.contains_key(id) && all[id] == segment
}

/// Registered segments all come from the registry.
pub proof fn lemma_registered<K: Kernel>(all: Map<u64, Arc<SealedSegment<K>>>, ids: Seq<u64>)
    ensures
        forall|i: int|
            0 <= i < registered(all, ids).len() ==> in_registry(
                all,
                #[trigger] registered(all, ids)[i],
            ),
    decreases ids.len(),
{
    if ids.len() > 0 {
        lemma_registered(all, ids.drop_last());
        let rest = registered(all, ids.drop_last());
        assert forall|i: int| 0 <= i < registered(all, ids).len() implies in_registry(
            all,
            #[trigger] registered(all, ids)[i],
        ) by {
            if i < rest.len() {
                assert(in_registry(all, rest[i]));
            } else {
                assert(all.contains_key(ids.last()));
            }
        }
    }
}

/// Turns sorted points into a page.
fn page_of<E: Copy>(
    all: &Vec<StoredPoint<E>>,
    payloads: &payload::PayloadMap,
    offset: usize,
    limit: usize,
) -> (page: Vec<PointRecord<E>>)
    ensures
        is_page(page@, points::pairs_of(all@), payloads@, offset as nat, limit as nat),
{
    let order = sorting::order_by_id(&points::raw_ids(all));
    let mut page: Vec<PointRecord<E>> = Vec::new();
    let n: usize = all.len();
    let count: usize = if offset >= n {
        0
    } else if limit <= n - offset {
        limit
    } else {
        n - offset
    };
    let ghost pairs = points::pairs_of(all@);
    for i in 0..count
        invariant
            n == all@.len(),
            pairs == points::pairs_of(all@),
            count > 0 ==> offset + count <= n,
            sorting::stable_order(points::ids_of(pairs), order@),
            page@.len() == i,
            forall|j: int|
                0 <= j < i ==> {
                    let (id, vector) = pairs[#[trigger] order@[offset + j] as int];
                    &&& (#[trigger] page@[j]).id == id
                    &&& page@[j].vector@ == vector
                    &&& page@[j].payload == shared_payload(payloads@, id.0)
                },
    {
        assert(order@[offset + i] < n);
        let point = &all[order[offset + i]];
        let payload: Option<Arc<Payload>> = match payloads.get(&point.id.get()) {
            Some(p) => Some(p.clone()),
            None => None,
        };
        let ghost before = page@;
        page.push(
            PointRecord {
                id: point.id,
                vector: vector::copy_slice(point.vector.as_slice()),
                payload,
            },
        );
        assert forall|j: int| 0 <= j < i + 1 implies {
            let (id, vector) = pairs[#[trigger] order@[offset + j] as int];
            &&& (#[trigger] page@[j]).id == id
            &&& page@[j].vector@ == vector
            &&& page@[j].payload == shared_payload(payloads@, id.0)
        } by {
            if j < i {
                assert(before[j] == page@[j]);
            }
        }
    }
    page
}

impl<K: Kernel> Collection<K> {
    /// What a live search returns.
    pub open spec fn found(&self, query: Seq<K::Elem>, k: nat, filter: Option<&Filter>) -> Seq<
        ScoredGlobal,
    > {
        let higher = self.config.metric.prefers_higher();
        let keeps = live(self.working_deletions.ids(), filter, self.payloads@);
        merge::merged(
            merge::offered(self.working.sealed@, query, k, keeps, higher) + merge::ranks_of(
                self.appendable.results(query, k, keeps),
                higher,
            ),
            k,
            higher,
        )
    }

    /// The segments of a past version that are still registered.
    pub open spec fn segments_at(&self, version: u64) -> Seq<Arc<SealedSegment<K>>> {
        registered(
            self.all_segments@,
            manifest::ids_of(self.versions.manifest(version).segments@),
        )
    }

    /// The tombstones frozen in a past version.
    pub open spec fn deletions_at(&self, version: u64) -> Set<u64> {
        self.versions.manifest(version).deletions.ids()
    }

    /// What a search as of a past version returns.
    pub open spec fn found_at(
        &self,
        version: u64,
        query: Seq<K::Elem>,
        k: nat,
        filter: Option<&Filter>,
    ) -> Seq<ScoredGlobal> {
        let higher = self.config.metric.prefers_higher();
        merge::merged(
            merge::offered(
                self.segments_at(version),
                query,
                k,
                live(self.deletions_at(version), filter, self.payloads@),
                higher,
            ),
            k,
            higher,
        )
    }

    /// The rows of the live view that are not tombstoned.
    pub open spec fn live_points(&self) -> Seq<(GlobalId, Seq<K::Elem>)> {
        points::kept_points(self.working.sealed@, self.working_deletions.ids())
            + points::kept_rows(
            self.appendable.global_ids(),
            self.appendable.rows(),
            self.working_deletions.ids(),
            self.appendable.rows().len(),
        )
    }

    /// The rows of a past version that are not tombstoned in it.
    pub open spec fn points_at(&self, version: u64) -> Seq<(GlobalId, Seq<K::Elem>)> {
        points::kept_points(self.segments_at(version), self.deletions_at(version))
    }

    /// Whether a point is live as of a past version.
    pub open spec fn live_at(&self, version: u64, id: u64) -> bool {
        points::ids_of(self.points_at(version)).contains(id)
    }

    /// The stored vector of a point: the appendable segment's, or that of the first
    /// working segment that has it.
    pub open spec fn vector_of(&self, id: u64) -> Option<Seq<K::Elem>> {
        match search::vector_at(self.appendable.global_ids(), self.appendable.rows(), id) {
            Some(v) => Some(v),
            None => points::first_vector(self.working.sealed@, id),
        }
    }

    /// The stored vectors of the example points that resolve, in order.
    pub open spec fn examples(&self, ids: Seq<GlobalId>) -> Seq<Seq<K::Elem>>
        decreases ids.len(),
    {
        if ids.len() == 0 {
            Seq::empty()
        } else {
            let rest = self.examples(ids.drop_last());
            match self.vector_of(ids.last().0) {
                Some(v) => rest.push(v),
                None => rest,
            }
        }
    }

    /// The query built from examples: the mean of the positive ones less the mean of the
    /// negative ones, normalized for cosine.
    pub open spec fn example_query(&self, positive: Seq<GlobalId>, negative: Seq<GlobalId>) -> Seq<
        K::Elem,
    > {
        let blended = self.kernel.spec_blend(self.examples(positive), self.examples(negative));
        if self.config.metric is Cosine {
            self.kernel.spec_normalized(blended)
        } else {
            blended
        }
    }

    /// What a recommendation returns.
    pub open spec fn recommended(
        &self,
        positive: Seq<GlobalId>,
        negative: Seq<GlobalId>,
        k: nat,
        filter: Option<&Filter>,
    ) -> Seq<ScoredGlobal> {
        let fetched = self.found(
            self.example_query(positive, negative),
            k + id_set(positive).len(),
            filter,
        );
        let kept = without(fetched, id_set(positive));
        if kept.len() <= k {
            kept
        } else {
            kept.take(k as int)
        }
    }

    /// Returns the best `k` live points for `query`, merging the working sealed set and
    /// the appendable segment, excluding the live deletion vector.
    pub fn search(&self, query: &[K::Elem], k: usize, filter: Option<&Filter>) -> (r: Result<
        Vec<ScoredGlobal>,
        CoreError,
    >)
        requires
            self.wf(),
        ensures
            match r {
                Ok(results) => query@.len() == self.config.dim && results@ == self.found(
                    query@,
                    k as nat,
                    filter,
                ),
                Err(e) => query@.len() != self.config.dim && e == CoreError::DimensionMismatch {
                    expected: self.config.dim,
                    got: query@.len() as usize,
                },
            },
    {
        self.check_dim(query)?;
        let higher = self.config.metric.higher_is_better();
        let fq: Option<FilterQuery> = match filter {
            Some(f) => Some(FilterQuery { filter: f, payloads: &self.payloads }),
            None => None,
        };
        let fq: Option<&FilterQuery> = fq.as_ref();
        proof {
            assert(search::visible(self.working_deletions.ids(), fq) =~= live(
                self.working_deletions.ids(),
                filter,
                self.payloads@,
            ));
        }
        let mut merger = search_segments(
            &self.working.sealed,
            query,
            k,
            &self.working_deletions,
            fq,
            higher,
        );
        let found = self.appendable.search(query, k, &self.working_deletions, fq);
        merge::offer_all(&mut merger, &found);
        Ok(merge::finalize(merger))
    }

    /// The manifest a selector stands for.
    fn manifest_of(&self, selector: &VersionSelector) -> (r: Result<Arc<Manifest>, CoreError>)
        requires
            self.wf(),
        ensures
            match r {
                Ok(m) => self.versions.resolved(*selector) matches Some(v) && m
                    == self.versions.manifest(v) && m.wf(),
                Err(e) => self.versions.resolved(*selector) is None && (e matches CoreError::Version {
                    detail,
                } && detail@ == "unresolved selector "@ + selector.shown()),
            },
    {
        match self.versions.resolve(selector) {
            Some(version) => match self.versions.get(version) {
                Some(m) => Ok(m),
                None => {
                    assert(false);
                    Err(CoreError::Version { detail: String::new() })
                },
            },
            None => Err(
                CoreError::Version {
                    detail: "unresolved selector ".to_owned().concat(selector.display().as_str()),
                },
            ),
        }
    }

    /// The segments a manifest references that are still registered.
    pub(crate) fn segments_of(&self, m: &Manifest) -> (segments: Vec<Arc<SealedSegment<K>>>)
        requires
            self.wf(),
        ensures
            segments@ == registered(self.all_segments@, manifest::ids_of(m.segments@)),
            collection::segments_ok(self.kernel, segments@),
    {
        let ids = m.segment_ids();
        proof {
            lemma_registered(self.all_segments@, ids@);
        }
        gather_segments(&self.all_segments, &ids)
    }

    /// Time-travel search: returns the best `k` points as of `selector`, using that
    /// version's segment set and frozen deletion vector (snapshot isolation).
    pub fn search_at(
        &self,
        selector: &VersionSelector,
        query: &[K::Elem],
        k: usize,
        filter: Option<&Filter>,
    ) -> (r: Result<Vec<ScoredGlobal>, CoreError>)
        requires
            self.wf(),
        ensures
            match r {
                Ok(results) => query@.len() == self.config.dim && (self.versions.resolved(
                    *selector,
                ) matches Some(v) && results@ == self.found_at(v, query@, k as nat, filter)),
                Err(e) => if query@.len() != self.config.dim {
                    e == CoreError::DimensionMismatch {
                        expected: self.config.dim,
                        got: query@.len() as usize,
                    }
                } else {
                    self.versions.resolved(*selector) is None && (e matches CoreError::Version {
                        detail,
                    } && detail@ == "unresolved selector "@ + selector.shown())
                },
            },
    {
        self.check_dim(query)?;
        let m = match self.manifest_of(selector) {
            Ok(m) => m,
            Err(e) => {
                return Err(e);
            },
        };
        let higher = self.config.metric.higher_is_better();
        let segments = self.segments_of(&m);
        let fq: Option<FilterQuery> = match filter {
            Some(f) => Some(FilterQuery { filter: f, payloads: &self.payloads }),
            None => None,
        };
        let fq: Option<&FilterQuery> = fq.as_ref();
        proof {
            assert(search::visible(m.deletions.ids(), fq) =~= live(
                m.deletions.ids(),
                filter,
                self.payloads@,
            ));
        }
        let merger = search_segments(&segments, query, k, &m.deletions, fq, higher);
        Ok(merge::finalize(merger))
    }

    /// The stored vector for `global`, if present (appendable or working segments).
    pub fn get_vector(&self, global: GlobalId) -> (vector: Option<Vec<K::Elem>>)
        requires
            self.wf(),
        ensures
            match vector {
                Some(v) => self.vector_of(global.0) == Some(v@) && v@.len() == self.config.dim,
                None => self.vector_of(global.0) is None,
            },
    {
        if let Some(v) = self.appendable.vector_of(global) {
            return Some(vector::copy_slice(v));
        }
        match points::find_vector(&self.working.sealed, global) {
            Some(v) => Some(vector::copy_slice(v)),
            None => None,
        }
    }

    /// A full live point (vector + payload) by id, or `None` if missing or tombstoned.
    pub fn get_point(&self, global: GlobalId) -> (point: Option<PointRecord<K::Elem>>)
        requires
            self.wf(),
        ensures
            match point {
                Some(p) => {
                    &&& !self.working_deletions.ids().contains(global.0)
                    &&& self.vector_of(global.0) == Some(p.vector@)
                    &&& p.id == global
                    &&& p.payload == shared_payload(self.payloads@, global.0)
                },
                None => self.working_deletions.ids().contains(global.0) || self.vector_of(global.0)
                    is None,
            },
    {
        if self.working_deletions.contains(global) {
            return None;
        }
        match self.get_vector(global) {
            Some(vector) => Some(
                PointRecord { id: global, vector, payload: self.payload(global) },
            ),
            None => None,
        }
    }

    /// The JSON payload for a single point by id, or `None` if it has none.
    pub fn payload(&self, global: GlobalId) -> (payload: Option<Arc<Payload>>)
        ensures
            payload == shared_payload(self.payloads@, global.0),
    {
        match self.payloads.get(&global.get()) {
            Some(p) => Some(p.clone()),
            None => None,
        }
    }

    /// Materializes a page of live points: every row across the working sealed set and the
    /// appendable segment, minus tombstones, joined with payloads and ordered by ascending
    /// global id. With `at`, reads as of a past version (its frozen segment set + deletion
    /// vector). Returns `(page, total_live_count)`.
    pub fn scroll(&self, at: Option<&VersionSelector>, offset: usize, limit: usize) -> (r: Result<
        (Vec<PointRecord<K::Elem>>, usize),
        CoreError,
    >)
        requires
            self.wf(),
        ensures
            match r {
                Ok((page, total)) => {
                    let all = match at {
                        None => self.live_points(),
                        Some(selector) => self.points_at(self.versions.resolved(*selector)->0),
                    };
                    &&& at matches Some(selector) ==> self.versions.resolved(*selector) is Some
                    &&& total == all.len()
                    &&& is_page(page@, all, self.payloads@, offset as nat, limit as nat)
                },
                Err(e) => at matches Some(selector) && self.versions.resolved(*selector) is None && (
                e matches CoreError::Version { detail } && detail@ == "unresolved selector "@
                    + selector.shown()),
            },
    {
        let rows = match at {
            None => {
                let mut rows = points::collect_points(
                    &self.working.sealed,
                    Some(&self.working_deletions),
                    self.config.dim,
                );
                let app = self.appendable.iter_points();
                points::append_kept(&mut rows, &app, Some(&self.working_deletions));
                proof {
                    assert(points::pairs_of(rows@) == self.live_points());
                }
                rows
            },
            Some(selector) => {
                let m = match self.manifest_of(selector) {
                    Ok(m) => m,
                    Err(e) => {
                        return Err(e);
                    },
                };
                let segments = self.segments_of(&m);
                points::collect_points(&segments, Some(&m.deletions), self.config.dim)
            },
        };
        let total: usize = rows.len();
        let page = page_of(&rows, &self.payloads, offset, limit);
        Ok((page, total))
    }

    /// The stored vectors of the example points that resolve.
    fn resolve_examples(&self, ids: &[GlobalId]) -> (vectors: Vec<Vec<K::Elem>>)
        requires
            self.wf(),
        ensures
            distance::contents_of(vectors@) == self.examples(ids@),
            forall|i: int|
                0 <= i < vectors@.len() ==> (#[trigger] vectors@[i])@.len() == self.config.dim,
    {
        let mut vectors: Vec<Vec<K::Elem>> = Vec::new();
        assert(distance::contents_of(vectors@) =~= self.examples(ids@.take(0)));
        for i in 0..ids.len()
            invariant
                self.wf(),
                distance::contents_of(vectors@) == self.examples(ids@.take(i as int)),
                forall|i: int|
                    0 <= i < vectors@.len() ==> (#[trigger] vectors@[i])@.len() == self.config.dim,
        {
            let ghost before = vectors@;
            proof {
                assert(ids@.take(i + 1).drop_last() =~= ids@.take(i as int));
            }
            if let Some(v) = self.get_vector(ids[i]) {
                let ghost content = v@;
                vectors.push(v);
                assert(distance::contents_of(vectors@) =~= distance::contents_of(before).push(
                    content,
                ));
            }
        }
        assert(ids@.take(ids@.len() as int) =~= ids@);
        vectors
    }

    /// Recommend-by-example: builds a query vector `mean(positives) - mean(negatives)`
    /// from the example points' vectors and searches, excluding the positive examples
    /// from the results. Requires at least one resolvable example.
    pub fn recommend(
        &self,
        positive: &[GlobalId],
        negative: &[GlobalId],
        k: usize,
        filter: Option<&Filter>,
    ) -> (r: Result<Vec<ScoredGlobal>, CoreError>)
        requires
            self.wf(),
            k + id_set(positive@).len() <= usize::MAX,
        ensures
            match r {
                Ok(results) => {
                    &&& self.examples(positive@).len() + self.examples(negative@).len() > 0
                    &&& results@ == self.recommended(positive@, negative@, k as nat, filter)
                    &&& ({
                        let blended = self.kernel.spec_blend(
                            recommend::resolved_vectors(*self, positive@),
                            recommend::resolved_vectors(*self, negative@),
                        );
                        let fetched = self.found(
                            if self.config.metric is Cosine {
                                self.kernel.spec_normalized(blended)
                            } else {
                                blended
                            },
                            (k + positive@.to_set().len()) as nat,
                            filter,
                        );
                        let others = fetched.filter(
                            |r: ScoredGlobal| !positive@.contains(r.id),
                        );
                        results@ == if others.len() <= k {
                            others
                        } else {
                            others.take(k as int)
                        }
                    })
                },
                Err(e) => {
                    &&& self.examples(positive@).len() + self.examples(negative@).len() == 0
                    &&& e matches CoreError::Version { detail } && detail@
                        == "recommend: no resolvable example points"@
                },
            },
    {
        let positives = self.resolve_examples(positive);
        let negatives = self.resolve_examples(negative);
        if positives.len() == 0 && negatives.len() == 0 {
            return Err(
                CoreError::Version { detail: "recommend: no resolvable example points".to_owned() },
            );
        }
        let blended = self.kernel.blend(&positives, &negatives);
        let query = if self.config.metric.requires_normalization() {
            self.kernel.normalize(blended)
        } else {
            blended
        };
        // Over-fetch so we can drop the positive examples, then trim to k.
        let excluded = collect_ids(positive);
        let fetch: usize = k + excluded.len();
        let fetched = match self.search(query.as_slice(), fetch, filter) {
            Ok(fetched) => fetched,
            Err(e) => {
                assert(false);
                return Err(e);
            },
        };
        let mut results = drop_excluded(&fetched, &excluded);
        if results.len() > k {
            results.truncate(k);
        }
        proof {
            recommend::law_recommendation_blends_all_examples(*self, positive@, negative@);
            recommend::law_recommendation_is_the_best_of_the_others(
                *self,
                positive@,
                negative@,
                k as nat,
                filter,
            );
        }
        Ok(results)
    }
}

} // verus!
