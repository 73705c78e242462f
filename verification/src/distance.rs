//! Distance metrics and the distance kernels.
//!
//! Score polarity differs by metric, so a kernel returns the *raw* metric value and
//! callers order results via [`Metric::higher_is_better`]:
//! - [`Metric::Cosine`] / [`Metric::Dot`]: dot product, **higher is better** (cosine
//!   assumes L2-normalized inputs).
//! - [`Metric::Euclidean`]: squared L2 distance, **lower is better**.
//!
//! Vector elements are abstract to the engine: everything it does to them goes through
//! the [`Kernel`] trait. [`DistanceKernel`] is the kernel over `u8` codes.

use vstd::prelude::*;
use vstd::string::StringExecFns;

use crate::ordered;
use crate::ordered::OrderedF32;
use crate::text;

verus! {

/// A vector-space distance/similarity metric.
#[derive(Debug, Clone, Copy, PartialEq, Eq, Hash, Structural)]
pub enum Metric {
    /// Cosine similarity, computed as a dot product over L2-normalized vectors.
    Cosine,
    /// Raw inner (dot) product.
    Dot,
    /// (Squared) Euclidean distance.
    Euclidean,
}

/// Error returned when parsing an unrecognized [`Metric`] name.
#[derive(Debug)]
pub struct UnknownMetric(pub String);

impl UnknownMetric {
    /// The message of the error.
    pub fn display(&self) -> (shown: String)
        ensures
            shown@ == "unknown metric "@ + text::quoted(self.0@)
                + " (expected one of: cosine, dot, euclidean)"@,
    {
        let quoted = text::quote(self.0.as_str());
        "unknown metric ".to_owned().concat(quoted.as_str()).concat(
            " (expected one of: cosine, dot, euclidean)",
        )
    }
}

impl Metric {
    /// Whether a larger raw score means a better match.
    pub open spec fn prefers_higher(self) -> bool {
        self is Cosine || self is Dot
    }

    /// The stable lowercase name used on the wire and in configs.
    pub open spec fn name(self) -> Seq<char> {
        match self {
            Metric::Cosine => "cosine"@,
            Metric::Dot => "dot"@,
            Metric::Euclidean => "euclidean"@,
        }
    }

    /// Whether a larger raw score means a *better* (closer) match. True for cosine and
    /// dot; false for Euclidean.
    pub fn higher_is_better(self) -> (r: bool)
        ensures
            r == self.prefers_higher(),
    {
        match self {
            Metric::Cosine => true,
            Metric::Dot => true,
            Metric::Euclidean => false,
        }
    }

    /// The sentinel "worst possible" score for this metric: negative infinity when
    /// higher is better, positive infinity otherwise.
    pub fn worst_score(self) -> (score: OrderedF32)
        ensures
            score.key == if self.prefers_higher() {
                -1 - ordered::INFINITY_KEY_32
            } else {
                ordered::INFINITY_KEY_32 as int
            },
    {
        let infinity = OrderedF32 { key: ordered::INFINITY_KEY_32 };
        if self.higher_is_better() {
            infinity.neg()
        } else {
            infinity
        }
    }

    /// Whether inputs must be L2-normalized at ingest for this metric to be correct.
    /// Only true for [`Metric::Cosine`].
    pub fn requires_normalization(self) -> (r: bool)
        ensures
            r == (self is Cosine),
    {
        match self {
            Metric::Cosine => true,
            Metric::Dot => false,
            Metric::Euclidean => false,
        }
    }

    /// The stable lowercase name used on the wire and in configs.
    pub fn as_str(self) -> (name: &'static str)
        ensures
            name@ == self.name(),
    {
        match self {
            Metric::Cosine => "cosine",
            Metric::Dot => "dot",
            Metric::Euclidean => "euclidean",
        }
    }

    /// Parses a metric from its lowercase wire name. Every other text is an error that
    /// carries it.
    pub fn parse(s: &str) -> (r: Result<Metric, UnknownMetric>)
        ensures
            match r {
                Ok(metric) => s@ == metric.name(),
                Err(UnknownMetric(text)) => text@ == s@ && forall|m: Metric| s@ != m.name(),
            },
    {
        let text = s.to_owned();
        if text == "cosine".to_owned() {
            Ok(Metric::Cosine)
        } else if text == "dot".to_owned() {
            Ok(Metric::Dot)
        } else if text == "euclidean".to_owned() {
            Ok(Metric::Euclidean)
        } else {
            assert forall|m: Metric| s@ != m.name() by {
                match m {
                    Metric::Cosine => {},
                    Metric::Dot => {},
                    Metric::Euclidean => {},
                }
            }
            Err(UnknownMetric(text))
        }
    }
}

impl core::str::FromStr for Metric {
    type Err = UnknownMetric;

    fn from_str(s: &str) -> (r: Result<Metric, UnknownMetric>)
        ensures
            match r {
                Ok(metric) => s@ == metric.name(),
                Err(UnknownMetric(text)) => text@ == s@ && forall|m: Metric| s@ != m.name(),
            },
    {
        Metric::parse(s)
    }
}

/// Parsing a metric's own name gives the metric back: the three names are distinct.
pub proof fn law_metric_names_are_distinct(a: Metric, b: Metric)
    requires
        a.name() == b.name(),
    ensures
        a == b,
{
    reveal_strlit("cosine");
    reveal_strlit("dot");
    reveal_strlit("euclidean");
    assert("cosine"@.len() == 6);
    assert("dot"@.len() == 3);
    assert("euclidean"@.len() == 9);
}

/// The "badness" of a raw score: smaller is closer, whatever the metric.
pub open spec fn badness_of(score: OrderedF32, higher_is_better: bool) -> OrderedF32 {
    if higher_is_better {
        score.negated()
    } else {
        score
    }
}

/// Converts a raw metric score into a badness, negating for higher-is-better metrics.
/// It is its own inverse, so it also turns a badness back into the score.
pub fn badness(score: OrderedF32, higher_is_better: bool) -> (b: OrderedF32)
    ensures
        b == badness_of(score, higher_is_better),
{
    if higher_is_better {
        score.neg()
    } else {
        score
    }
}

/// The contents of a list of vectors.
pub open spec fn contents_of<E>(vectors: Seq<Vec<E>>) -> Seq<Seq<E>> {
    Seq::new(vectors.len(), |i: int| vectors[i]@)
}

/// What the engine asks of vector elements: scoring, normalization, quantization, and
/// the logarithm behind level assignment. Every operation is a function of its
/// arguments alone; the `spec_` functions name their results. An implementation that does
/// not define them leaves open which functions they are.
pub trait Kernel: Copy {
    /// The type of one vector component.
    type Elem: Copy;

    /// The kernel for a metric and a dimensionality.
    open spec fn kernel_for(metric: Metric, dim: nat) -> Self {
        arbitrary::<spec_fn(Metric, nat) -> Self>()(metric, dim)
    }

    /// The metric.
    open spec fn spec_metric(&self) -> Metric {
        arbitrary::<spec_fn(Self) -> Metric>()(*self)
    }

    /// The dimensionality.
    open spec fn spec_dim(&self) -> nat {
        arbitrary::<spec_fn(Self) -> nat>()(*self)
    }

    /// The raw metric value between two vectors.
    open spec fn spec_score(&self, a: Seq<Self::Elem>, b: Seq<Self::Elem>) -> OrderedF32 {
        arbitrary::<spec_fn(Self, Seq<Self::Elem>, Seq<Self::Elem>) -> OrderedF32>()(*self, a, b)
    }

    /// The L2-normalized form of a vector.
    open spec fn spec_normalized(&self, v: Seq<Self::Elem>) -> Seq<Self::Elem> {
        arbitrary::<spec_fn(Self, Seq<Self::Elem>) -> Seq<Self::Elem>>()(*self, v)
    }

    /// The bit pattern of the quantization scale fitted to a buffer.
    open spec fn spec_scale(&self, flat: Seq<Self::Elem>) -> u32 {
        arbitrary::<spec_fn(Self, Seq<Self::Elem>) -> u32>()(*self, flat)
    }

    /// The `i8` code of one component under a scale.
    open spec fn spec_code(&self, scale: u32, x: Self::Elem) -> i8 {
        arbitrary::<spec_fn(Self, u32, Self::Elem) -> i8>()(*self, scale, x)
    }

    /// The mean of the positive examples less the mean of the negative ones.
    open spec fn spec_blend(
        &self,
        positive: Seq<Seq<Self::Elem>>,
        negative: Seq<Seq<Self::Elem>>,
    ) -> Seq<Self::Elem> {
        arbitrary::<
            spec_fn(Self, Seq<Seq<Self::Elem>>, Seq<Seq<Self::Elem>>) -> Seq<Self::Elem>,
        >()(*self, positive, negative)
    }

    /// The unclamped layer drawn for a 53-bit uniform value under out-degree `m`.
    open spec fn spec_level(&self, uniform: u64, m: nat) -> nat {
        arbitrary::<spec_fn(Self, u64, nat) -> nat>()(*self, uniform, m)
    }

    /// The kernel for `metric` over `dim`-dimensional vectors.
    fn for_metric(metric: Metric, dim: usize) -> (kernel: Self)
        ensures
            kernel == Self::kernel_for(metric, dim as nat),
            kernel.spec_metric() == metric,
            kernel.spec_dim() == dim,
    ;

    /// The metric this kernel computes.
    fn metric(&self) -> (metric: Metric)
        ensures
            metric == self.spec_metric(),
    ;

    /// The vector dimensionality this kernel expects.
    fn dim(&self) -> (dim: usize)
        ensures
            dim == self.spec_dim(),
    ;

    /// Computes the raw metric value between two vectors. Order results with
    /// [`Metric::higher_is_better`].
    fn score(&self, a: &[Self::Elem], b: &[Self::Elem]) -> (score: OrderedF32)
        requires
            a@.len() == self.spec_dim(),
            b@.len() == self.spec_dim(),
        ensures
            score == self.spec_score(a@, b@),
    ;

    /// L2-normalizes a vector. A zero vector is left unchanged.
    fn normalize(&self, v: Vec<Self::Elem>) -> (unit: Vec<Self::Elem>)
        ensures
            unit@ == self.spec_normalized(v@),
            unit@.len() == v@.len(),
    ;

    /// Fits the quantization scale of a buffer: the largest magnitude over 127, or 1
    /// for an all-zero buffer.
    fn fit_scale(&self, flat: &[Self::Elem]) -> (scale: u32)
        ensures
            scale == self.spec_scale(flat@),
    ;

    /// Quantizes one component: divided by the scale, rounded and clamped to ±127.
    fn encode_one(&self, scale: u32, x: Self::Elem) -> (code: i8)
        ensures
            code == self.spec_code(scale, x),
    ;

    /// The mean of the positive examples less the mean of the negative ones, component by
    /// component. No examples count as zero.
    fn blend(&self, positive: &Vec<Vec<Self::Elem>>, negative: &Vec<Vec<Self::Elem>>) -> (query: Vec<
        Self::Elem,
    >)
        requires
            forall|i: int|
                0 <= i < positive@.len() ==> (#[trigger] positive@[i])@.len() == self.spec_dim(),
            forall|i: int|
                0 <= i < negative@.len() ==> (#[trigger] negative@[i])@.len() == self.spec_dim(),
        ensures
            query@ == self.spec_blend(contents_of(positive@), contents_of(negative@)),
            query@.len() == self.spec_dim(),
    ;

    /// Draws a layer: `floor(-ln(u) / ln(m))` for `u` the uniform value over 2^53.
    fn level(&self, uniform: u64, m: usize) -> (level: usize)
        ensures
            level == self.spec_level(uniform, m as nat),
    ;
}

/// Two's-complement wrap of an integer into 32 bits.
pub open spec fn wrap_i32(n: int) -> int {
    let r = n % 0x1_0000_0000;
    if r > i32::MAX {
        r - 0x1_0000_0000
    } else {
        r
    }
}

/// The dot product of two byte vectors.
pub open spec fn inner_u8(a: Seq<u8>, b: Seq<u8>) -> int
    decreases a.len(),
{
    if a.len() == 0 {
        0
    } else {
        inner_u8(a.drop_last(), b.drop_last()) + a.last() * b.last()
    }
}

/// The squared Euclidean distance of two byte vectors.
pub open spec fn squared_u8(a: Seq<u8>, b: Seq<u8>) -> int
    decreases a.len(),
{
    if a.len() == 0 {
        0
    } else {
        squared_u8(a.drop_last(), b.drop_last()) + (a.last() - b.last()) * (a.last() - b.last())
    }
}

/// Dot product of two equal-length `u8` vectors, accumulated in `i32`.
pub fn dot_u8(a: &[u8], b: &[u8]) -> (sum: i32)
    requires
        a@.len() == b@.len(),
    ensures
        sum == wrap_i32(inner_u8(a@, b@)),
{
    let mut sum: i32 = 0;
    for i in 0..a.len()
        invariant
            a@.len() == b@.len(),
            sum == wrap_i32(inner_u8(a@.take(i as int), b@.take(i as int))),
    {
        let x: i32 = a[i] as i32;
        let y: i32 = b[i] as i32;
        proof {
            assert(a@.take(i + 1).drop_last() =~= a@.take(i as int));
            assert(b@.take(i + 1).drop_last() =~= b@.take(i as int));
            assert(0 <= x * y <= 65025) by (nonlinear_arith)
                requires
                    0 <= x <= 255,
                    0 <= y <= 255,
            ;
        }
        sum = sum.wrapping_add(x * y);
    }
    proof {
        assert(a@.take(a@.len() as int) =~= a@);
        assert(b@.take(a@.len() as int) =~= b@);
    }
    sum
}

/// Squared Euclidean distance of two equal-length `u8` vectors, accumulated in `i32`.
pub fn sq_l2_u8(a: &[u8], b: &[u8]) -> (sum: i32)
    requires
        a@.len() == b@.len(),
    ensures
        sum == wrap_i32(squared_u8(a@, b@)),
{
    let mut sum: i32 = 0;
    for i in 0..a.len()
        invariant
            a@.len() == b@.len(),
            sum == wrap_i32(squared_u8(a@.take(i as int), b@.take(i as int))),
    {
        let d: i32 = (a[i] as i32) - (b[i] as i32);
        proof {
            assert(a@.take(i + 1).drop_last() =~= a@.take(i as int));
            assert(b@.take(i + 1).drop_last() =~= b@.take(i as int));
            assert(0 <= d * d <= 65025) by (nonlinear_arith)
                requires
                    -255 <= d <= 255,
            ;
        }
        sum = sum.wrapping_add(d * d);
    }
    proof {
        assert(a@.take(a@.len() as int) =~= a@);
        assert(b@.take(a@.len() as int) =~= b@);
    }
    sum
}

/// The layer drawn by integer arithmetic: the largest `l` with `uniform * m^l <= 2^53`,
/// counted up to `budget`.
pub open spec fn integer_level(uniform: nat, m: nat, budget: nat) -> nat
    decreases budget,
{
    if budget == 0 || uniform * m > 0x20_0000_0000_0000 {
        0
    } else {
        1 + integer_level(uniform * m, m, (budget - 1) as nat)
    }
}

/// The sum of one component over the first `n` code vectors.
pub open spec fn component_sum(vectors: Seq<Seq<u8>>, component: int, n: nat) -> nat
    decreases n,
{
    if n == 0 {
        0
    } else {
        component_sum(vectors, component, (n - 1) as nat) + vectors[n - 1][component] as nat
    }
}

/// The whole part of the mean of one component: zero where there are no vectors.
pub open spec fn component_mean(vectors: Seq<Seq<u8>>, component: int) -> nat {
    if vectors.len() == 0 {
        0
    } else {
        component_sum(vectors, component, vectors.len()) / vectors.len()
    }
}

fn mean_of(vectors: &Vec<Vec<u8>>, component: usize) -> (mean: u8)
    requires
        forall|i: int| 0 <= i < vectors@.len() ==> component < (#[trigger] vectors@[i])@.len(),
    ensures
        mean == component_mean(contents_of(vectors@), component as int),
{
    let n: usize = vectors.len();
    if n == 0 {
        return 0;
    }
    let mut sum: u128 = 0;
    for i in 0..n
        invariant
            n == vectors@.len(),
            forall|i: int| 0 <= i < vectors@.len() ==> component < (#[trigger] vectors@[i])@.len(),
            sum == component_sum(contents_of(vectors@), component as int, i as nat),
            sum <= 255 * i,
    {
        sum = sum + vectors[i][component] as u128;
    }
    let mean: u128 = sum / (n as u128);
    assert(mean <= 255) by (nonlinear_arith)
        requires
            sum <= 255 * n,
            n > 0,
            mean == sum / (n as u128),
    ;
    mean as u8
}

/// The kernel over `u8` codes: a metric and the dimensionality it works on. Codes are
/// taken as already normalized, and quantize to themselves up to 127.
#[derive(Debug, Clone, Copy, PartialEq, Eq, Structural)]
pub struct DistanceKernel {
    /// The metric.
    pub metric: Metric,
    /// The dimensionality.
    pub dim: usize,
}

impl DistanceKernel {
    /// The exact value of the metric between two code vectors.
    pub open spec fn integer_score(&self, a: Seq<u8>, b: Seq<u8>) -> int {
        if self.metric.prefers_higher() {
            inner_u8(a, b)
        } else {
            squared_u8(a, b)
        }
    }

    /// Builds a kernel for `metric` over `dim`-dimensional vectors.
    pub fn new(metric: Metric, dim: usize) -> (kernel: DistanceKernel)
        ensures
            kernel == (DistanceKernel { metric, dim }),
    {
        DistanceKernel { metric, dim }
    }

    /// Computes the raw `i32` metric value between two quantized (`u8`) vectors. Cosine
    /// is dot over normalized inputs, so it shares the dot kernel.
    pub fn score_u8(&self, a: &[u8], b: &[u8]) -> (score: i32)
        requires
            a@.len() == self.dim,
            b@.len() == self.dim,
        ensures
            score == wrap_i32(self.integer_score(a@, b@)),
    {
        match self.metric {
            Metric::Cosine => dot_u8(a, b),
            Metric::Dot => dot_u8(a, b),
            Metric::Euclidean => sq_l2_u8(a, b),
        }
    }
}

impl Kernel for DistanceKernel {
    type Elem = u8;

    open spec fn kernel_for(metric: Metric, dim: nat) -> DistanceKernel {
        DistanceKernel { metric, dim: dim as usize }
    }

    open spec fn spec_metric(&self) -> Metric {
        self.metric
    }

    open spec fn spec_dim(&self) -> nat {
        self.dim as nat
    }

    open spec fn spec_score(&self, a: Seq<u8>, b: Seq<u8>) -> OrderedF32 {
        OrderedF32 { key: ordered::key_of_integer(wrap_i32(self.integer_score(a, b))) as i32 }
    }

    open spec fn spec_normalized(&self, v: Seq<u8>) -> Seq<u8> {
        v
    }

    open spec fn spec_scale(&self, flat: Seq<u8>) -> u32 {
        0x3f80_0000
    }

    open spec fn spec_code(&self, scale: u32, x: u8) -> i8 {
        if x > 127 {
            127
        } else {
            x as i8
        }
    }

    open spec fn spec_blend(&self, positive: Seq<Seq<u8>>, negative: Seq<Seq<u8>>) -> Seq<u8> {
        Seq::new(
            self.dim as nat,
            |i: int|
                if component_mean(positive, i) >= component_mean(negative, i) {
                    (component_mean(positive, i) - component_mean(negative, i)) as u8
                } else {
                    0
                },
        )
    }

    open spec fn spec_level(&self, uniform: u64, m: nat) -> nat {
        integer_level(uniform as nat, m, 64)
    }

    fn for_metric(metric: Metric, dim: usize) -> (kernel: DistanceKernel) {
        DistanceKernel::new(metric, dim)
    }

    fn metric(&self) -> (metric: Metric) {
        self.metric
    }

    fn dim(&self) -> (dim: usize) {
        self.dim
    }

    fn score(&self, a: &[u8], b: &[u8]) -> (score: OrderedF32) {
        OrderedF32::from_i32(self.score_u8(a, b))
    }

    fn normalize(&self, v: Vec<u8>) -> (unit: Vec<u8>) {
        v
    }

    fn fit_scale(&self, flat: &[u8]) -> (scale: u32) {
        0x3f80_0000
    }

    fn encode_one(&self, scale: u32, x: u8) -> (code: i8) {
        if x > 127 {
            127
        } else {
            x as i8
        }
    }

    fn blend(&self, positive: &Vec<Vec<u8>>, negative: &Vec<Vec<u8>>) -> (query: Vec<u8>) {
        let mut query: Vec<u8> = Vec::with_capacity(self.dim);
        let ghost blended = self.spec_blend(contents_of(positive@), contents_of(negative@));
        for i in 0..self.dim
            invariant
                blended == self.spec_blend(contents_of(positive@), contents_of(negative@)),
                forall|i: int|
                    0 <= i < positive@.len() ==> (#[trigger] positive@[i])@.len() == self.dim,
                forall|i: int|
                    0 <= i < negative@.len() ==> (#[trigger] negative@[i])@.len() == self.dim,
                query@ == blended.take(i as int),
        {
            query.push(mean_of(positive, i).saturating_sub(mean_of(negative, i)));
            assert(query@ =~= blended.take(i + 1));
        }
        assert(query@ =~= blended);
        query
    }

    fn level(&self, uniform: u64, m: usize) -> (level: usize) {
        let mut reach: u128 = uniform as u128;
        let mut budget: usize = 64;
        let mut level: usize = 0;
        while budget > 0
            invariant_except_break
                level + integer_level(reach as nat, m as nat, budget as nat) == integer_level(
                    uniform as nat,
                    m as nat,
                    64,
                ),
            invariant
                level + budget == 64,
                reach <= u64::MAX,
            ensures
                level == integer_level(uniform as nat, m as nat, 64),
            decreases budget,
        {
            assert(reach * m <= u128::MAX) by (nonlinear_arith)
                requires
                    reach <= u64::MAX,
                    m <= u64::MAX,
            ;
            let next: u128 = reach * (m as u128);
            if next > 0x20_0000_0000_0000 {
                break;
            }
            reach = next;
            level = level + 1;
            budget = budget - 1;
        }
        level
    }
}

} // verus!
