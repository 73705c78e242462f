//! Contiguous in-memory vector storage.
//!
//! [`VectorStorage`] is a flat, row-major buffer of equal-length vectors. It owns the
//! cosine invariant: when its metric is [`Metric::Cosine`], vectors are L2-normalized
//! **once, at ingest**, so search reduces to a plain dot product.

use vstd::prelude::*;
use vstd::slice::slice_subrange;

use crate::distance::Kernel;
use crate::distance::Metric;
use crate::id::PointId;

verus! {

/// Copies a slice into a fresh buffer.
pub fn copy_slice<E: Copy>(s: &[E]) -> (out: Vec<E>)
    ensures
        out@ == s@,
{
    let mut out: Vec<E> = Vec::with_capacity(s.len());
    for i in 0..s.len()
        invariant
            out@ == s@.take(i as int),
    {
        out.push(s[i]);
        assert(out@ =~= s@.take(i + 1));
    }
    assert(out@ =~= s@);
    out
}

/// Appends a slice to a buffer.
pub fn append_slice<E: Copy>(out: &mut Vec<E>, s: &[E])
    ensures
        final(out)@ == old(out)@ + s@,
{
    let ghost before = out@;
    for i in 0..s.len()
        invariant
            out@ == before + s@.take(i as int),
    {
        out.push(s[i]);
        assert(out@ =~= before + s@.take(i + 1));
    }
    assert(out@ =~= before + s@);
}

/// Row `i` of a row-major buffer.
pub open spec fn row_of<E>(flat: Seq<E>, dim: nat, i: int) -> Seq<E> {
    flat.subrange(i * dim, (i + 1) * dim)
}

/// The `count` rows of a row-major buffer.
pub open spec fn rows_of<E>(flat: Seq<E>, dim: nat, count: nat) -> Seq<Seq<E>> {
    Seq::new(count, |i: int| row_of(flat, dim, i))
}

/// Row bounds lie within the buffer.
pub proof fn lemma_row_bounds(i: int, dim: int, count: int)
    requires
        0 <= i < count,
        0 <= dim,
    ensures
        0 <= i * dim <= (i + 1) * dim <= count * dim,
        (i + 1) * dim == i * dim + dim,
{
    assert((i + 1) * dim == i * dim + dim) by (nonlinear_arith);
    assert(0 <= i * dim && (i + 1) * dim <= count * dim) by (nonlinear_arith)
        requires
            0 <= i < count,
            0 <= dim,
    ;
}

/// Appending a row to the buffer appends it to the rows.
pub proof fn lemma_rows_push<E>(flat: Seq<E>, row: Seq<E>, dim: nat, count: nat)
    requires
        flat.len() == count * dim,
        row.len() == dim,
    ensures
        (flat + row).len() == (count + 1) * dim,
        rows_of(flat + row, dim, count + 1) == rows_of(flat, dim, count).push(row),
{
    assert((count + 1) * dim == count * dim + dim) by (nonlinear_arith);
    let longer = rows_of(flat + row, dim, count + 1);
    let expected = rows_of(flat, dim, count).push(row);
    assert forall|i: int| 0 <= i < count + 1 implies longer[i] == expected[i] by {
        lemma_row_bounds(i, dim as int, (count + 1) as int);
        if i < count {
            lemma_row_bounds(i, dim as int, count as int);
            assert(longer[i] =~= expected[i]);
        } else {
            assert(longer[i] =~= row);
        }
    }
    assert(longer =~= expected);
}

/// A growable, contiguous store of equal-length vectors.
pub struct VectorStorage<K: Kernel> {
    /// The kernel whose metric and dimensionality the store follows.
    pub kernel: K,
    /// The row-major buffer.
    pub data: Vec<K::Elem>,
    /// The number of rows.
    pub count: usize,
}

impl<K: Kernel> VectorStorage<K> {
    /// The buffer holds `count` rows of a non-zero dimensionality, and every row has a
    /// `u32` id.
    pub open spec fn wf(&self) -> bool {
        &&& self.kernel.spec_dim() > 0
        &&& self.data@.len() == self.count * self.kernel.spec_dim()
        &&& self.count <= u32::MAX
    }

    /// The stored vectors, in id order.
    pub open spec fn rows(&self) -> Seq<Seq<K::Elem>> {
        rows_of(self.data@, self.kernel.spec_dim(), self.count as nat)
    }

    /// The form in which a vector is stored: unit length for cosine, else as given.
    pub open spec fn ingested(kernel: K, v: Seq<K::Elem>) -> Seq<K::Elem> {
        if kernel.spec_metric() is Cosine {
            kernel.spec_normalized(v)
        } else {
            v
        }
    }

    /// Creates an empty store for the kernel's vectors.
    pub fn new(kernel: K) -> (store: VectorStorage<K>)
        requires
            kernel.spec_dim() > 0,
        ensures
            store.wf(),
            store.kernel == kernel,
            store.rows() == Seq::<Seq<K::Elem>>::empty(),
    {
        let store = VectorStorage { kernel, data: Vec::new(), count: 0 };
        proof {
            assert(0 * kernel.spec_dim() == 0) by (nonlinear_arith);
            assert(store.rows() =~= Seq::<Seq<K::Elem>>::empty());
        }
        store
    }

    /// Like [`VectorStorage::new`] but preallocates room for `capacity` vectors.
    pub fn with_capacity(kernel: K, capacity: usize) -> (store: VectorStorage<K>)
        requires
            kernel.spec_dim() > 0,
            capacity * kernel.spec_dim() <= usize::MAX,
        ensures
            store.wf(),
            store.kernel == kernel,
            store.rows() == Seq::<Seq<K::Elem>>::empty(),
    {
        let store = VectorStorage {
            kernel,
            data: Vec::with_capacity(capacity * kernel.dim()),
            count: 0,
        };
        proof {
            assert(0 * kernel.spec_dim() == 0) by (nonlinear_arith);
            assert(store.rows() =~= Seq::<Seq<K::Elem>>::empty());
        }
        store
    }

    /// Adopts a row-major buffer of already ingested rows. A buffer whose length is not
    /// a whole number of rows, or that holds more rows than there are ids, is refused.
    pub fn from_flat(kernel: K, data: Vec<K::Elem>) -> (store: Option<VectorStorage<K>>)
        requires
            kernel.spec_dim() > 0,
        ensures
            match store {
                Some(store) => store.wf() && store.kernel == kernel && store.data == data,
                None => data@.len() as int % kernel.spec_dim() as int != 0 || data@.len()
                    > u32::MAX * kernel.spec_dim(),
            },
            store is Some <==> data@.len() as int % kernel.spec_dim() as int == 0 && data@.len()
                <= u32::MAX * kernel.spec_dim(),
    {
        let dim: usize = kernel.dim();
        let count: usize = data.len() / dim;
        proof {
            vstd::arithmetic::div_mod::lemma_fundamental_div_mod(data@.len() as int, dim as int);
            assert(dim * count == count * dim) by (nonlinear_arith);
            if count > u32::MAX {
                assert(count * dim > u32::MAX * dim) by (nonlinear_arith)
                    requires
                        count > u32::MAX,
                        dim > 0,
                ;
            } else {
                assert(count * dim <= u32::MAX * dim) by (nonlinear_arith)
                    requires
                        count <= u32::MAX,
                        dim > 0,
                ;
            }
        }
        if data.len() % dim != 0 || count > u32::MAX as usize {
            None
        } else {
            Some(VectorStorage { kernel, data, count })
        }
    }

    /// The kernel the store follows.
    pub fn kernel(&self) -> (kernel: K)
        ensures
            kernel == self.kernel,
    {
        self.kernel
    }

    /// The vector dimensionality.
    pub fn dim(&self) -> (dim: usize)
        ensures
            dim == self.kernel.spec_dim(),
    {
        self.kernel.dim()
    }

    /// The metric this store normalizes for.
    pub fn metric(&self) -> (metric: Metric)
        ensures
            metric == self.kernel.spec_metric(),
    {
        self.kernel.metric()
    }

    /// The number of stored vectors.
    pub fn len(&self) -> (count: usize)
        ensures
            count == self.rows().len(),
            count == self.count,
    {
        self.count
    }

    /// Whether the store is empty.
    pub fn is_empty(&self) -> (r: bool)
        ensures
            r == (self.rows().len() == 0),
    {
        self.count == 0
    }

    /// Appends a vector, returning its assigned segment-local [`PointId`]. For a cosine
    /// store the stored copy is L2-normalized; the input slice is untouched.
    pub fn push(&mut self, vector: &[K::Elem]) -> (id: PointId)
        requires
            old(self).wf(),
            vector@.len() == old(self).kernel.spec_dim(),
            old(self).rows().len() < u32::MAX,
        ensures
            final(self).wf(),
            final(self).kernel == old(self).kernel,
            final(self).rows() == old(self).rows().push(
                VectorStorage::ingested(old(self).kernel, vector@),
            ),
            id.0 == old(self).rows().len(),
    {
        let id = PointId::new(self.count as u32);
        let row = if self.kernel.metric().requires_normalization() {
            self.kernel.normalize(copy_slice(vector))
        } else {
            copy_slice(vector)
        };
        proof {
            lemma_rows_push(self.data@, row@, self.kernel.spec_dim(), self.count as nat);
        }
        append_slice(&mut self.data, row.as_slice());
        self.count = self.count + 1;
        id
    }

    /// Returns the stored vector for `id`.
    pub fn get(&self, id: PointId) -> (row: &[K::Elem])
        requires
            self.wf(),
            id.0 < self.rows().len(),
        ensures
            row@ == self.rows()[id.0 as int],
            row@.len() == self.kernel.spec_dim(),
    {
        let dim: usize = self.kernel.dim();
        let total: usize = self.data.len();
        proof {
            lemma_row_bounds(id.0 as int, dim as int, self.count as int);
            assert((id.0 + 1) * dim <= total);
        }
        let start: usize = id.get() as usize * dim;
        slice_subrange(self.data.as_slice(), start, start + dim)
    }

    /// The `(id, vector)` pairs in id order.
    pub fn iter(&self) -> (rows: Vec<(PointId, &[K::Elem])>)
        requires
            self.wf(),
        ensures
            rows@.len() == self.rows().len(),
            forall|i: int|
                0 <= i < rows@.len() ==> (#[trigger] rows@[i]).0.0 == i && rows@[i].1@
                    == self.rows()[i],
    {
        let mut rows: Vec<(PointId, &[K::Elem])> = Vec::with_capacity(self.count);
        for i in 0..self.count
            invariant
                self.wf(),
                rows@.len() == i,
                forall|j: int|
                    0 <= j < i ==> (#[trigger] rows@[j]).0.0 == j && rows@[j].1@ == self.rows()[j],
        {
            let id = PointId::new(i as u32);
            rows.push((id, self.get(id)));
        }
        rows
    }

    /// The raw backing buffer (row-major).
    pub fn as_flat(&self) -> (flat: &[K::Elem])
        ensures
            flat@ == self.data@,
    {
        self.data.as_slice()
    }
}

} // verus!
