//! A vector: an identifier and a zero-padded, aligned run of scalar words.

use crate::error::ZyphyrError;
use crate::utils::alignment::{
    get_simd_width, is_aligned, lemma_pad_dimension, lemma_pad_dimension_least, pad_dimension,
    pad_dimension_spec, simd_width_spec, word_limit, SimdSupport, SIMD_ALIGNMENT,
};
use crate::vector::distance::{metric_value, DistanceMetric, Measurements};
use crate::vector::buffer::{buffer_alignment, buffer_words, WordBuffer};
use vstd::arithmetic::div_mod::*;
use vstd::arithmetic::mul::*;
use crate::scalar::{is_positive, word_is_positive, ZERO};
use vstd::layout::size_of;
use vstd::prelude::*;
use vstd::slice::slice_subrange;

verus! {

/// What a vector is, seen from outside.
pub struct VectorView {
    /// The identifier.
    pub id: Seq<char>,
    /// The logical components, one word each.
    pub words: Seq<u32>,
    /// The length of the padded buffer.
    pub padded_dim: nat,
    /// Whether the components have been scaled to unit length.
    pub normalized: bool,
}

impl VectorView {
    /// The whole buffer: the components, then zero words up to the padded
    /// length.
    pub open spec fn raw_words(self) -> Seq<u32> {
        self.words + Seq::new((self.padded_dim - self.words.len()) as nat, |i: int| 0u32)
    }

    /// What holds of every vector: it has a component, and its buffer is at
    /// least as long as its components and short enough to allocate.
    pub open spec fn wf(self) -> bool {
        0 < self.words.len() <= self.padded_dim <= word_limit()
    }
}

/// One identified vector of single-precision components.
#[derive(Debug)]
pub struct Vector {
    id: String,
    data: WordBuffer,
    dim: usize,
    padded_dim: usize,
    is_normalized: bool,
}

impl View for Vector {
    type V = VectorView;

    closed spec fn view(&self) -> VectorView {
        VectorView {
            id: self.id@,
            words: buffer_words(&self.data).take(self.dim as int),
            padded_dim: self.padded_dim as nat,
            normalized: self.is_normalized,
        }
    }
}

impl Clone for Vector {
    /// A second vector with the same identifier, components and padding, in
    /// a buffer of its own.
    fn clone(&self) -> (copy: Vector)
        ensures
            copy@ == self@,
    {
        proof {
            use_type_invariant(self);
        }
        Vector {
            id: self.id.clone(),
            data: self.data.duplicate(),
            dim: self.dim,
            padded_dim: self.padded_dim,
            is_normalized: self.is_normalized,
        }
    }
}

/// Whether a dimension, padded for `support`, stays within the word limit.
pub open spec fn dimension_fits(dim: nat, support: SimdSupport) -> bool {
    pad_dimension_spec(dim, simd_width_spec(support)) <= word_limit()
}

/// The vector that normalisation leaves behind: untouched where it was
/// already normalised or where the magnitude is not a number above zero,
/// otherwise the scaled components in place of the old ones, marked
/// normalised. The padded length never changes.
pub open spec fn normalized_view(v: VectorView, magnitude: u32, scaled: Seq<u32>) -> VectorView {
    if v.normalized || !is_positive(magnitude) {
        v
    } else {
        VectorView { words: scaled, normalized: true, ..v }
    }
}

/// A byte count, held at `usize::MAX` where it would not fit.
pub open spec fn saturated(bytes: nat) -> usize {
    if bytes > usize::MAX {
        usize::MAX
    } else {
        bytes as usize
    }
}

/// The bytes a vector accounts for: its fixed part, the storage behind its
/// identifier, and four bytes for each slot of its padded buffer.
pub open spec fn vector_footprint(id_storage: nat, padded_dim: nat) -> nat {
    size_of::<Vector>() + id_storage + padded_dim * 4
}

/// Whether `j` is the first of `others` whose dimension is not `dim`.
pub open spec fn first_mismatch(dim: nat, others: Seq<&Vector>, j: int) -> bool {
    &&& 0 <= j < others.len()
    &&& others[j]@.words.len() != dim
    &&& forall|i: int| 0 <= i < j ==> (#[trigger] others[i])@.words.len() == dim
}

/// Whether `storage` bytes can stand behind the identifier `id`: no fewer
/// than it is long, and no more than one allocation can hold.
pub open spec fn is_storage_for(id: Seq<char>, storage: usize) -> bool {
    id.len() <= storage <= isize::MAX
}

/// Calls `String::capacity`. How much was reserved is the allocator's
/// choice; it is never less than the text needs, and never more than
/// `isize::MAX` bytes, the most that one allocation holds.
#[verifier::external_body]
fn string_capacity(s: &String) -> (capacity: usize)
    ensures
        s@.len() <= capacity <= isize::MAX,
{
    s.capacity()
}

impl Vector {
    #[verifier::type_invariant]
    spec fn inv(&self) -> bool {
        &&& 0 < self.dim <= self.padded_dim <= word_limit()
        &&& buffer_words(&self.data).len() == self.padded_dim
        &&& forall|i: int| self.dim <= i < self.padded_dim ==> buffer_words(&self.data)[i] == 0u32
        &&& buffer_alignment(&self.data) == SIMD_ALIGNMENT
    }

    /// Builds a vector from an identifier and its components, padded for the
    /// probed platform.
    pub fn new(id: String, data: Vec<u32>, support: SimdSupport) -> (result: Result<
        Vector,
        ZyphyrError,
    >)
        ensures
            Self::constructed(id@, data@, support, result),
    {
        Self::from_slice(id, data.as_slice(), support)
    }

    /// What construction returns: the vector that holds exactly the given
    /// components, or the reason there is none.
    pub open spec fn constructed(
        id: Seq<char>,
        data: Seq<u32>,
        support: SimdSupport,
        result: Result<Vector, ZyphyrError>,
    ) -> bool {
        match result {
            Ok(v) => {
                &&& data.len() > 0
                &&& dimension_fits(data.len(), support)
                &&& v@.id == id
                &&& v@.words == data
                &&& v@.padded_dim == pad_dimension_spec(data.len(), simd_width_spec(support))
                &&& !v@.normalized
                &&& v@.wf()
            },
            Err(e) => if data.len() == 0 {
                e == (ZyphyrError::InvalidDimension { expected: 1, got: 0 })
            } else {
                !dimension_fits(data.len(), support) && e == ZyphyrError::AllocationFailure
            },
        }
    }

    /// Builds a vector by copying the components out of a slice.
    pub fn from_slice(id: String, data: &[u32], support: SimdSupport) -> (result: Result<
        Vector,
        ZyphyrError,
    >)
        ensures
            Self::constructed(id@, data@, support, result),
    {
        let dim = data.len();
        if dim == 0 {
            return Err(ZyphyrError::InvalidDimension { expected: 1, got: 0 });
        }
        // Pad to a whole number of SIMD lanes.
        let simd_width = get_simd_width(support);
        let limit = usize::MAX / 16;
        let lanes = limit / simd_width;
        proof {
            let w = simd_width as int;
            lemma_fundamental_div_mod(limit as int, w);
            lemma_mod_bound(limit as int, w);
            lemma_mul_is_commutative(w, (limit as int) / w);
            assert(0 <= lanes * simd_width <= limit);
        }
        // the largest padded dimension whose buffer can still be allocated
        let widest = lanes * simd_width;
        proof {
            let w = simd_width as int;
            lemma_mod_multiples_basic((limit as int) / w, w);
            lemma_pad_dimension(dim as nat, simd_width as nat);
            if dim <= widest {
                lemma_pad_dimension_least(dim as nat, simd_width as nat, widest as nat);
            } else {
                // the padded dimension is a multiple of the width above `widest`
                let p = pad_dimension_spec(dim as nat, simd_width as nat) as int;
                lemma_fundamental_div_mod(p, w);
                lemma_mul_is_commutative(w, p / w);
                if p / w <= (limit as int) / w {
                    lemma_mul_inequality(p / w, (limit as int) / w, w);
                } else {
                    lemma_mul_inequality((limit as int) / w + 1, p / w, w);
                    lemma_mul_is_distributive_add_other_way(w, (limit as int) / w, 1);
                }
            }
        }
        if dim > widest {
            return Err(ZyphyrError::AllocationFailure);
        }
        let padded_dim = pad_dimension(dim, simd_width);

        let mut aligned_data = WordBuffer::with_capacity(SIMD_ALIGNMENT, padded_dim);
        aligned_data.extend_from_slice(data);
        aligned_data.resize(padded_dim, ZERO);  // pad with zeros
        assert(buffer_words(&aligned_data).take(dim as int) =~= data@);

        Ok(Vector { id, data: aligned_data, dim, padded_dim, is_normalized: false })
    }

    /// The identifier.
    pub fn id(&self) -> (id: &str)
        ensures
            id@ == self@.id,
    {
        self.id.as_str()
    }

    /// The logical components, without the padding.
    pub fn data(&self) -> (words: &[u32])
        ensures
            words@ == self@.words,
            self@.wf(),
    {
        proof {
            use_type_invariant(self);
        }
        slice_subrange(self.data.as_slice(), 0, self.dim)
    }

    /// The whole padded buffer: the components, then zeros.
    pub fn raw_data(&self) -> (words: &[u32])
        ensures
            words@ == self@.raw_words(),
            words@.len() == self@.padded_dim,
            self@.wf(),
    {
        proof {
            use_type_invariant(self);
            assert(buffer_words(&self.data) =~= self@.raw_words());
        }
        self.data.as_slice()
    }

    /// The number of logical components.
    pub fn dim(&self) -> (dim: usize)
        ensures
            dim == self@.words.len(),
            self@.wf(),
    {
        proof {
            use_type_invariant(self);
        }
        self.dim
    }

    /// The length of the padded buffer.
    pub fn padded_dim(&self) -> (padded_dim: usize)
        ensures
            padded_dim == self@.padded_dim,
            self@.wf(),
    {
        proof {
            use_type_invariant(self);
        }
        self.padded_dim
    }

    /// Whether the components have been scaled to unit length.
    pub fn is_normalized(&self) -> (normalized: bool)
        ensures
            normalized == self@.normalized,
    {
        self.is_normalized
    }

    /// Scales the vector to unit length, given what the caller measured:
    /// `magnitude`, the Euclidean norm of the components, and `scaled`, each
    /// component divided by it. Nothing happens to a vector that is already
    /// normalised, nor where the magnitude is not above zero, so that a later
    /// attempt is tried again. The padding is never written.
    pub fn normalize(&mut self, magnitude: u32, scaled: &[u32])
        requires
            scaled@.len() == old(self)@.words.len(),
        ensures
            final(self)@ == normalized_view(old(self)@, magnitude, scaled@),
    {
        proof {
            use_type_invariant(&*self);
        }
        if self.is_normalized {
            return ;
        }
        // Avoid division by zero
        if word_is_positive(magnitude) {
            let dim = self.dim;
            let mut i: usize = 0;
            while i < dim
                invariant
                    0 <= i <= dim,
                    dim == self.dim == old(self).dim,
                    self.padded_dim == old(self).padded_dim,
                    self.id == old(self).id,
                    !self.is_normalized,
                    scaled@.len() == dim,
                    0 < dim <= self.padded_dim <= word_limit(),
                    buffer_words(&self.data).len() == self.padded_dim,
                    buffer_alignment(&self.data) == SIMD_ALIGNMENT,
                    forall|j: int| 0 <= j < i ==> buffer_words(&self.data)[j] == scaled@[j],
                    forall|j: int|
                        dim <= j < self.padded_dim ==> buffer_words(&self.data)[j] == 0u32,
                decreases dim - i,
            {
                self.data.store(i, scaled[i]);
                i += 1;
            }
            self.is_normalized = true;
            assert(buffer_words(&self.data).take(dim as int) =~= scaled@);
        }
    }

    /// Whether the buffer starts at an address fit for SIMD loads. The
    /// buffer is allocated with that alignment, so it always does.
    pub fn is_aligned(&self) -> (aligned: bool)
        ensures
            aligned,
    {
        proof {
            use_type_invariant(self);
        }
        is_aligned(self.data.address(), SIMD_ALIGNMENT)
    }

    /// The bytes this vector accounts for when `id_storage` bytes stand
    /// behind its identifier.
    pub fn memory_footprint(&self, id_storage: usize) -> (bytes: usize)
        ensures
            bytes == saturated(vector_footprint(id_storage as nat, self@.padded_dim)),
    {
        proof {
            use_type_invariant(self);
        }
        core::mem::size_of::<Vector>().saturating_add(id_storage).saturating_add(
            self.padded_dim * 4,
        )
    }

    /// The bytes reserved behind the identifier: at least its length, at
    /// most what one allocation holds.
    pub fn id_storage(&self) -> (id_storage: usize)
        ensures
            is_storage_for(self@.id, id_storage),
    {
        string_capacity(&self.id)
    }

    /// An estimate of the bytes this vector occupies: its footprint with the
    /// storage that is reserved for its identifier.
    pub fn memory_usage(&self) -> (bytes: usize)
        ensures
            exists|id_storage: usize|
                is_storage_for(self@.id, id_storage) && bytes == saturated(
                    #[trigger] vector_footprint(id_storage as nat, self@.padded_dim),
                ),
    {
        let id_storage = self.id_storage();
        self.memory_footprint(id_storage)
    }

    /// Computes the metric between this vector and each of `others`, in
    /// their order, from what was measured on each pair. The first of
    /// `others` with another dimension ends the run with its error; the
    /// ones behind it are not looked at.
    pub fn batch_distance(
        &self,
        others: &[&Vector],
        metric: DistanceMetric,
        measured: &[Measurements],
    ) -> (result: Result<Vec<u32>, ZyphyrError>)
        requires
            measured@.len() == others@.len(),
        ensures
            match result {
                Ok(values) => {
                    &&& values@.len() == others@.len()
                    &&& forall|i: int|
                        0 <= i < others@.len() ==> (#[trigger] others@[i])@.words.len()
                            == self@.words.len()
                    &&& forall|i: int|
                        0 <= i < others@.len() ==> #[trigger] values@[i] == metric_value(
                            metric,
                            measured@[i],
                        )
                },
                Err(e) => exists|j: int|
                    #[trigger] first_mismatch(self@.words.len(), others@, j) && e == (
                    ZyphyrError::InvalidDimension {
                        expected: self@.words.len() as usize,
                        got: others@[j]@.words.len() as usize,
                    }),
            },
    {
        let mut values: Vec<u32> = Vec::with_capacity(others.len());
        let mut i: usize = 0;
        while i < others.len()
            invariant
                0 <= i <= others@.len(),
                measured@.len() == others@.len(),
                values@.len() == i,
                forall|j: int|
                    0 <= j < i ==> (#[trigger] others@[j])@.words.len() == self@.words.len(),
                forall|j: int|
                    0 <= j < i ==> #[trigger] values@[j] == metric_value(metric, measured@[j]),
            decreases others@.len() - i,
        {
            match metric.compute(self, others[i], &measured[i]) {
                Ok(value) => {
                    values.push(value);
                },
                Err(e) => {
                    assert(first_mismatch(self@.words.len(), others@, i as int));
                    return Err(e);
                },
            }
            i += 1;
        }
        Ok(values)
    }
}

/// A constructed vector is padded to a whole number of lanes: its padded
/// length is a multiple of the platform's width and at least its dimension,
/// its buffer starts with the given components, and every slot behind them
/// holds a zero.
pub proof fn lemma_constructed_is_padded(
    id: Seq<char>,
    data: Seq<u32>,
    support: SimdSupport,
    v: Vector,
)
    requires
        Vector::constructed(id, data, support, Ok(v)),
    ensures
        v@.padded_dim % simd_width_spec(support) == 0,
        v@.padded_dim >= data.len() > 0,
        v@.raw_words().len() == v@.padded_dim,
        v@.raw_words().take(data.len() as int) == data,
        forall|i: int| data.len() <= i < v@.padded_dim ==> v@.raw_words()[i] == 0u32,
{
    lemma_pad_dimension(data.len(), simd_width_spec(support));
    assert(v@.raw_words().take(data.len() as int) =~= data);
}

/// Normalising is idempotent: once a call has scaled the vector, or where
/// it was normalised before, a further call changes nothing, whatever
/// magnitude and components it is handed. Where the first call found no
/// magnitude above zero and so left the vector as it was, a further call
/// that finds the same magnitude leaves it so again.
pub proof fn lemma_normalize_idempotent(
    v: VectorView,
    magnitude: u32,
    scaled: Seq<u32>,
    later_magnitude: u32,
    later_scaled: Seq<u32>,
)
    requires
        v.normalized || is_positive(magnitude) || later_magnitude == magnitude,
    ensures
        normalized_view(normalized_view(v, magnitude, scaled), later_magnitude, later_scaled)
            == normalized_view(v, magnitude, scaled),
{
}

/// Normalising leaves a vector whose magnitude is not above zero as it is,
/// and never touches the identifier, the dimension or the padding.
pub proof fn lemma_normalize_keeps_shape(v: VectorView, magnitude: u32, scaled: Seq<u32>)
    requires
        v.wf(),
        scaled.len() == v.words.len(),
    ensures
        !is_positive(magnitude) ==> normalized_view(v, magnitude, scaled) == v,
        normalized_view(v, magnitude, scaled).wf(),
        normalized_view(v, magnitude, scaled).id == v.id,
        normalized_view(v, magnitude, scaled).words.len() == v.words.len(),
        normalized_view(v, magnitude, scaled).padded_dim == v.padded_dim,
        forall|i: int|
            v.words.len() <= i < v.padded_dim ==> normalized_view(
                v,
                magnitude,
                scaled,
            ).raw_words()[i] == 0u32,
{
}

} // verus!
