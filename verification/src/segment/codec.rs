//! Sealed-segment on-disk form.
//!
//! A sealed segment serializes to a self-describing record (vectors + id map + HNSW graph
//! + tombstones + the config needed to reopen it). The schema is centralized in
//! [`SegmentData`].

use std::path::PathBuf;
use std::sync::Arc;

use vstd::prelude::*;
use vstd::string::StringExecFns;

use crate::bitmap;
use crate::distance::Kernel;
use crate::distance::Metric;
use crate::error::CoreError;
use crate::id::GlobalId;
use crate::id::SegmentId;
use crate::index::hnsw::builder;
use crate::index::hnsw::graph;
use crate::index::hnsw::search::Graph;
use crate::index::hnsw::GraphLayers;
use crate::index::HnswConfig;
use crate::index::HnswIndex;
use crate::index::Index;
use crate::quantization;
use crate::segment::search;
use crate::segment::sealed;
use crate::segment::IdMap;
use crate::segment::SealedSegment;
use crate::text;
use crate::vector;
use crate::vector::VectorStorage;

verus! {

/// The on-disk segment format version (bumped on any incompatible schema change). The
/// second version added the `quantization` flag; segments of the first were always
/// reopened as quantized.
pub const SEGMENT_FORMAT_VERSION: u32 = 2;

/// The plain record of a sealed segment.
pub struct SegmentData<E> {
    /// Vector dimensionality.
    pub dim: u32,
    /// The metric's tag.
    pub metric: u8,
    /// Target out-degree on the upper layers.
    pub m: u32,
    /// Maximum out-degree on layer 0.
    pub m_max0: u32,
    /// Beam width while building.
    pub ef_construction: u32,
    /// Default beam width while searching.
    pub ef_search: u32,
    /// Seed for the level assignment.
    pub seed: u64,
    /// Whether pruned candidates are topped up.
    pub keep_pruned: bool,
    /// Whether the index uses int8 quantization.
    pub quantization: bool,
    /// The vectors, row-major.
    pub vectors: Vec<E>,
    /// The global id of each row.
    pub global_ids: Vec<u64>,
    /// Tombstoned local ids, ascending.
    pub deleted: Vec<u32>,
    /// The graph's entry point.
    pub entry: Option<u32>,
    /// The level of the entry point.
    pub max_level: u32,
    /// The level of each point.
    pub levels: Vec<u8>,
    /// Where each point's layer-0 neighbors start.
    pub l0_offsets: Vec<u64>,
    /// The layer-0 neighbors of all points.
    pub l0_links: Vec<u32>,
    /// The upper layers of the points that have any.
    pub upper: Vec<Vec<Vec<u32>>>,
    /// The slot of each point in `upper`.
    pub upper_index: Vec<u32>,
}

/// The tag of a metric.
pub open spec fn metric_tag(m: Metric) -> u8 {
    match m {
        Metric::Cosine => 0,
        Metric::Dot => 1,
        Metric::Euclidean => 2,
    }
}

/// The tag of a metric.
pub fn metric_to_u8(m: Metric) -> (tag: u8)
    ensures
        tag == metric_tag(m),
{
    match m {
        Metric::Cosine => 0,
        Metric::Dot => 1,
        Metric::Euclidean => 2,
    }
}

/// The metric of a tag.
pub fn metric_from_u8(tag: u8) -> (r: Result<Metric, CoreError>)
    ensures
        match r {
            Ok(m) => metric_tag(m) == tag,
            Err(e) => tag > 2 && (e matches CoreError::Serialization { detail } && detail@
                == "unknown metric tag "@ + text::decimal(tag as nat)),
        },
        r is Ok <==> tag <= 2,
{
    if tag == 0 {
        Ok(Metric::Cosine)
    } else if tag == 1 {
        Ok(Metric::Dot)
    } else if tag == 2 {
        Ok(Metric::Euclidean)
    } else {
        Err(
            CoreError::Serialization {
                detail: "unknown metric tag ".to_owned().concat(
                    text::decimal_text(tag as u64).as_str(),
                ),
            },
        )
    }
}

/// The graph in a record.
pub open spec fn graph_in<E>(data: SegmentData<E>) -> GraphLayers {
    GraphLayers {
        entry: data.entry,
        max_level: data.max_level as usize,
        levels: data.levels,
        l0_offsets: data.l0_offsets,
        l0_links: data.l0_links,
        upper: data.upper,
        upper_index: data.upper_index,
    }
}

/// The index parameters in a record.
pub open spec fn config_in<E>(data: SegmentData<E>) -> HnswConfig {
    HnswConfig {
        m: data.m as usize,
        m_max0: data.m_max0 as usize,
        ef_construction: data.ef_construction as usize,
        ef_search: data.ef_search as usize,
        seed: data.seed,
        keep_pruned: data.keep_pruned,
        quantization: data.quantization,
    }
}

/// Whether the parts of a record fit together: a known metric, whole rows with a global id
/// each, and a graph over exactly those rows.
pub open spec fn coherent<E>(data: SegmentData<E>) -> bool {
    &&& data.metric <= 2
    &&& data.dim > 0
    &&& data.vectors@.len() == data.global_ids@.len() * data.dim
    &&& data.global_ids@.len() <= u32::MAX
    &&& graph_in(data).searchable(data.global_ids@.len())
}

/// Two lists of lists have the same contents.
pub open spec fn same_lists(a: Seq<Vec<Vec<u32>>>, b: Seq<Vec<Vec<u32>>>) -> bool {
    a.len() == b.len() && forall|s: int|
        0 <= s < a.len() ==> builder::layers_of((#[trigger] a[s])@) == builder::layers_of(b[s]@)
}

/// Whether a record describes a segment.
pub open spec fn describes<K: Kernel>(data: SegmentData<K::Elem>, segment: SealedSegment<K>) -> bool {
    let config = segment.index.config;
    let graph = segment.index.graph;
    &&& data.dim == segment.index.kernel.spec_dim() as u32
    &&& data.metric == metric_tag(segment.index.kernel.spec_metric())
    &&& data.m == config.m as u32
    &&& data.m_max0 == config.m_max0 as u32
    &&& data.ef_construction == config.ef_construction as u32
    &&& data.ef_search == config.ef_search as u32
    &&& data.seed == config.seed
    &&& data.keep_pruned == config.keep_pruned
    &&& data.quantization == config.quantization
    &&& data.vectors@ == segment.index.vectors.data@
    &&& data.global_ids@.len() == segment.global_ids().len()
    &&& forall|i: int|
        0 <= i < data.global_ids@.len() ==> (#[trigger] data.global_ids@[i])
            == segment.global_ids()[i].0
    &&& data.deleted@.to_set() == segment.index.deleted.ids()
    &&& data.entry == graph.entry
    &&& data.max_level == graph.max_level as u32
    &&& data.levels@ == graph.levels@
    &&& data.l0_offsets@ == graph.l0_offsets@
    &&& data.l0_links@ == graph.l0_links@
    &&& same_lists(data.upper@, graph.upper@)
    &&& data.upper_index@ == graph.upper_index@
}

fn copy_lists(lists: &Vec<Vec<u32>>) -> (copy: Vec<Vec<u32>>)
    ensures
        builder::layers_of(copy@) == builder::layers_of(lists@),
{
    let mut copy: Vec<Vec<u32>> = Vec::with_capacity(lists.len());
    for i in 0..lists.len()
        invariant
            copy@.len() == i,
            forall|j: int| 0 <= j < i ==> (#[trigger] copy@[j])@ == lists@[j]@,
    {
        copy.push(vector::copy_slice(lists[i].as_slice()));
    }
    assert(builder::layers_of(copy@) =~= builder::layers_of(lists@));
    copy
}

/// Refuses a segment written in a format newer than this one.
pub fn check_format_version(found: u32, path: PathBuf) -> (r: Result<(), CoreError>)
    ensures
        r == if found > SEGMENT_FORMAT_VERSION {
            Err(
                CoreError::UnsupportedVersion { path, found, supported: SEGMENT_FORMAT_VERSION },
            )
        } else {
            Ok::<(), CoreError>(())
        },
{
    if found > SEGMENT_FORMAT_VERSION {
        return Err(
            CoreError::UnsupportedVersion { path, found, supported: SEGMENT_FORMAT_VERSION },
        );
    }
    Ok(())
}

/// Takes a sealed segment apart into its plain record.
pub fn encode_segment<K: Kernel>(segment: &SealedSegment<K>) -> (data: SegmentData<K::Elem>)
    requires
        segment.wf(),
    ensures
        describes(data, *segment),
        forall|i: int, j: int|
            0 <= i < j < data.deleted@.len() ==> (#[trigger] data.deleted@[i]) < (
            #[trigger] data.deleted@[j]),
{
    let index = segment.index();
    let vectors = index.vectors();
    let graph = index.graph();
    let config = index.config();
    let tombstones = index.deleted().snapshot();
    let deleted = bitmap::bitmap_values(&tombstones);
    proof {
        assert(deleted@.to_set() =~= segment.index.deleted.ids());
    }
    let ids = segment.id_map().global_ids();
    let mut global_ids: Vec<u64> = Vec::with_capacity(ids.len());
    for i in 0..ids.len()
        invariant
            global_ids@.len() == i,
            forall|j: int| 0 <= j < i ==> (#[trigger] global_ids@[j]) == ids@[j].0,
    {
        global_ids.push(ids[i].get());
    }
    let mut upper: Vec<Vec<Vec<u32>>> = Vec::with_capacity(graph.upper.len());
    for s in 0..graph.upper.len()
        invariant
            upper@.len() == s,
            forall|t: int|
                0 <= t < s ==> builder::layers_of((#[trigger] upper@[t])@) == builder::layers_of(
                    graph.upper@[t]@,
                ),
    {
        upper.push(copy_lists(&graph.upper[s]));
    }
    SegmentData {
        dim: vectors.dim() as u32,
        metric: metric_to_u8(vectors.metric()),
        m: config.m as u32,
        m_max0: config.m_max0 as u32,
        ef_construction: config.ef_construction as u32,
        ef_search: config.ef_search as u32,
        seed: config.seed,
        keep_pruned: config.keep_pruned,
        quantization: config.quantization,
        vectors: vector::copy_slice(vectors.as_flat()),
        global_ids,
        deleted,
        entry: graph.entry,
        max_level: graph.max_level as u32,
        levels: vector::copy_slice(graph.levels.as_slice()),
        l0_offsets: vector::copy_slice(graph.l0_offsets.as_slice()),
        l0_links: vector::copy_slice(graph.l0_links.as_slice()),
        upper,
        upper_index: vector::copy_slice(graph.upper_index.as_slice()),
    }
}

/// The error for a record whose parts do not fit together.
fn incoherent() -> (e: CoreError)
    ensures
        e matches CoreError::Serialization { detail } && detail@
            == "segment parts do not fit together"@,
{
    CoreError::Serialization { detail: "segment parts do not fit together".to_owned() }
}

/// Reassembles a sealed segment from its plain record.
pub fn decode_segment<K: Kernel>(id: SegmentId, data: SegmentData<K::Elem>) -> (r: Result<
    SealedSegment<K>,
    CoreError,
>)
    ensures
        match r {
            Ok(segment) => {
                &&& coherent(data)
                &&& segment.wf()
                &&& segment.id == id
                &&& segment.index.kernel.spec_dim() == data.dim
                &&& metric_tag(segment.index.kernel.spec_metric()) == data.metric
                &&& segment.index.kernel == K::kernel_for(
                    segment.index.kernel.spec_metric(),
                    data.dim as nat,
                )
                &&& segment.index.config == config_in(data)
                &&& segment.index.graph == graph_in(data)
                &&& segment.index.vectors.data == data.vectors
                &&& segment.index.deleted.ids() == data.deleted@.to_set()
                &&& segment.global_ids().len() == data.global_ids@.len()
                &&& forall|i: int|
                    0 <= i < data.global_ids@.len() ==> (#[trigger] segment.global_ids()[i]).0
                        == data.global_ids@[i]
            },
            Err(e) => {
                &&& !coherent(data)
                &&& e matches CoreError::Serialization { detail } && detail@ == if data.metric > 2 {
                    "unknown metric tag "@ + text::decimal(data.metric as nat)
                } else {
                    "segment parts do not fit together"@
                }
            },
        },
{
    let metric = match metric_from_u8(data.metric) {
        Ok(m) => m,
        Err(e) => {
            return Err(e);
        },
    };
    if data.dim == 0 {
        return Err(incoherent());
    }
    let kernel = K::for_metric(metric, data.dim as usize);
    let ghost flat = data.vectors@;
    let dim: usize = data.dim as usize;
    let config = HnswConfig {
        m: data.m as usize,
        m_max0: data.m_max0 as usize,
        ef_construction: data.ef_construction as usize,
        ef_search: data.ef_search as usize,
        seed: data.seed,
        keep_pruned: data.keep_pruned,
        quantization: data.quantization,
    };
    let graph = GraphLayers {
        entry: data.entry,
        max_level: data.max_level as usize,
        levels: data.levels,
        l0_offsets: data.l0_offsets,
        l0_links: data.l0_links,
        upper: data.upper,
        upper_index: data.upper_index,
    };
    let n: usize = data.global_ids.len();
    if n > u32::MAX as usize || !graph.check(n) {
        return Err(incoherent());
    }
    let vectors = match VectorStorage::from_flat(kernel, data.vectors) {
        Some(vectors) => vectors,
        None => {
            proof {
                if coherent(data) {
                    vstd::arithmetic::div_mod::lemma_mod_multiples_basic(n as int, dim as int);
                    assert(n * dim <= u32::MAX * dim) by (nonlinear_arith)
                        requires
                            n <= u32::MAX,
                    ;
                }
            }
            return Err(incoherent());
        },
    };
    if vectors.len() != n {
        proof {
            assert(vectors.count * dim != n * dim) by (nonlinear_arith)
                requires
                    vectors.count != n,
                    dim > 0,
            ;
        }
        return Err(incoherent());
    }
    let mut global_ids: Vec<GlobalId> = Vec::with_capacity(n);
    for i in 0..n
        invariant
            n == data.global_ids@.len(),
            global_ids@.len() == i,
            forall|j: int| 0 <= j < i ==> (#[trigger] global_ids@[j]).0 == data.global_ids@[j],
    {
        global_ids.push(GlobalId::new(data.global_ids[i]));
    }
    let ids = IdMap::from_global_ids(global_ids);
    let index = HnswIndex::from_parts(
        Arc::new(vectors),
        config,
        graph,
        data.deleted.as_slice(),
    );
    Ok(SealedSegment::from_index(id, index, ids))
}

/// A segment that is taken apart and reassembled is the same segment: the same rows under
/// the same ids, the same graph, parameters and tombstones, so every search returns the
/// same results.
pub proof fn law_reopened_segment_searches_alike<K: Kernel>(
    segment: SealedSegment<K>,
    data: SegmentData<K::Elem>,
    reopened: SealedSegment<K>,
    q: Seq<K::Elem>,
    k: nat,
    keeps: spec_fn(u64) -> bool,
)
    requires
        segment.wf(),
        describes(data, segment),
        segment.index.kernel == K::kernel_for(
            segment.index.kernel.spec_metric(),
            segment.index.kernel.spec_dim(),
        ),
        segment.index.kernel.spec_dim() <= u32::MAX,
        segment.index.config.m <= u32::MAX,
        segment.index.config.m_max0 <= u32::MAX,
        segment.index.config.ef_construction <= u32::MAX,
        segment.index.config.ef_search <= u32::MAX,
        segment.index.graph.max_level <= u32::MAX,
        reopened.wf(),
        reopened.index.kernel.spec_dim() == data.dim,
        metric_tag(reopened.index.kernel.spec_metric()) == data.metric,
        reopened.index.kernel == K::kernel_for(
            reopened.index.kernel.spec_metric(),
            data.dim as nat,
        ),
        reopened.index.config == config_in(data),
        reopened.index.graph == graph_in(data),
        reopened.index.vectors.data == data.vectors,
        reopened.index.deleted.ids() == data.deleted@.to_set(),
        reopened.global_ids().len() == data.global_ids@.len(),
        forall|i: int|
            0 <= i < data.global_ids@.len() ==> (#[trigger] reopened.global_ids()[i]).0
                == data.global_ids@[i],
    ensures
        reopened.global_ids() == segment.global_ids(),
        reopened.rows() == segment.rows(),
        reopened.index.config == segment.index.config,
        reopened.index.deleted.ids() == segment.index.deleted.ids(),
        reopened.index.graph.state() == segment.index.graph.state(),
        reopened.results(q, k, keeps) == segment.results(q, k, keeps),
{
    let a = segment.index.graph;
    let b = reopened.index.graph;
    assert(reopened.index.kernel.spec_metric() == segment.index.kernel.spec_metric());
    assert(reopened.index.kernel == segment.index.kernel);
    assert forall|i: int| 0 <= i < segment.global_ids().len() implies segment.global_ids()[i]
        == reopened.global_ids()[i] by {
        assert(data.global_ids@[i] == segment.global_ids()[i].0);
        assert(reopened.global_ids()[i].0 == data.global_ids@[i]);
    }
    assert(reopened.global_ids() =~= segment.global_ids());
    assert(reopened.index.vectors.count == segment.index.vectors.count);
    assert(reopened.rows() == segment.rows());
    assert forall|p: int| 0 <= p < a.levels@.len() implies a.lists(p) == b.lists(p) by {
        let slot = a.upper_index@[p];
        if slot != graph::NO_SLOT {
            assert(builder::layers_of(data.upper@[slot as int]@) == builder::layers_of(
                a.upper@[slot as int]@,
            ));
        }
        assert(graph::upper_lists(a.upper@, slot) == graph::upper_lists(b.upper@, slot));
    }
    assert(a.adjacency() =~= b.adjacency());
    assert(reopened.results(q, k, keeps) == segment.results(q, k, keeps));
}

/// A record of a well-formed segment that fits the record's integer widths is coherent, so
/// reassembling it succeeds.
pub proof fn law_described_segments_reopen<K: Kernel>(
    segment: SealedSegment<K>,
    data: SegmentData<K::Elem>,
)
    requires
        segment.wf(),
        describes(data, segment),
        segment.index.kernel.spec_dim() <= u32::MAX,
        segment.index.graph.max_level <= u32::MAX,
    ensures
        coherent(data),
{
    let a = segment.index.graph;
    let b = graph_in(data);
    assert forall|p: int| 0 <= p < a.levels@.len() implies a.lists(p) == b.lists(p) by {
        let slot = a.upper_index@[p];
        if slot != graph::NO_SLOT {
            assert(builder::layers_of(data.upper@[slot as int]@) == builder::layers_of(
                a.upper@[slot as int]@,
            ));
        }
        assert(graph::upper_lists(a.upper@, slot) == graph::upper_lists(b.upper@, slot));
    }
    assert(a.adjacency() =~= b.adjacency());
    assert(b.graph_ok());
    assert(b.searchable(data.global_ids@.len()));
}

} // verus!
