//! Alignment and padding arithmetic for SIMD-friendly buffers.

use vstd::prelude::*;
use vstd::arithmetic::div_mod::*;
use vstd::arithmetic::mul::*;

verus! {

/// Alignment in bytes required for AVX2/AVX-512 loads.
pub const SIMD_ALIGNMENT: usize = 32;

/// The most words an aligned buffer is ever asked to hold: their bytes, and
/// an alignment's worth of slack, fit in `isize`.
pub open spec fn word_limit() -> nat {
    (usize::MAX / 16) as nat
}

/// The smallest multiple of `simd_width` that is at least `dim`.
pub open spec fn pad_dimension_spec(dim: nat, simd_width: nat) -> nat
    recommends
        simd_width > 0,
{
    (((dim + simd_width - 1) / (simd_width as int)) * simd_width) as nat
}

/// `pad_dimension_spec` rounds up to a multiple of the width and overshoots by
/// less than one width.
pub proof fn lemma_pad_dimension(dim: nat, simd_width: nat)
    requires
        simd_width > 0,
    ensures
        pad_dimension_spec(dim, simd_width) % simd_width == 0,
        dim <= pad_dimension_spec(dim, simd_width) < dim + simd_width,
{
    let w = simd_width as int;
    let n = dim + simd_width - 1;
    let q = n / w;
    lemma_fundamental_div_mod(n, w);
    lemma_mod_bound(n, w);
    lemma_mul_is_commutative(w, q);
    lemma_div_pos_is_pos(n, w);
    lemma_mul_nonnegative(q, w);
    lemma_mod_multiples_basic(q, w);
}

/// No multiple of the width that reaches `dim` is smaller than the padded
/// dimension.
pub proof fn lemma_pad_dimension_least(dim: nat, simd_width: nat, m: nat)
    requires
        simd_width > 0,
        m % simd_width == 0,
        m >= dim,
    ensures
        m >= pad_dimension_spec(dim, simd_width),
{
    let w = simd_width as int;
    let p = pad_dimension_spec(dim, simd_width) as int;
    lemma_pad_dimension(dim, simd_width);
    if m < p {
        // two multiples of the width that differ by less than the width
        lemma_fundamental_div_mod(m as int, w);
        lemma_fundamental_div_mod(p, w);
        let k = (m as int) / w;
        let q = p / w;
        lemma_mul_is_commutative(w, k);
        lemma_mul_is_commutative(w, q);
        if k < q {
            lemma_mul_inequality(k + 1, q, w);
            lemma_mul_is_distributive_add_other_way(w, k, 1);
        } else {
            lemma_mul_inequality(q, k, w);
        }
    }
}

/// What a probe of the processor found. The probe itself is the caller's:
/// it runs once, and its finding is handed to whatever needs the width.
#[derive(Debug, Clone, Copy, PartialEq, Eq, Structural)]
pub enum SimdSupport {
    /// An x86-64 processor with the listed instruction sets.
    X86_64 { sse: bool, avx: bool, avx2: bool, avx512f: bool },
    /// A 64-bit ARM processor, with or without NEON.
    Aarch64 { neon: bool },
    /// Any other processor: nothing is known about it.
    Unknown,
}

/// The number of 32-bit lanes of the widest instruction set that was found;
/// 1 where none was.
pub open spec fn simd_width_spec(support: SimdSupport) -> nat {
    match support {
        SimdSupport::X86_64 { sse, avx, avx2, avx512f } => if avx512f {
            16
        } else if avx2 {
            8
        } else if sse {
            4
        } else {
            1
        },
        SimdSupport::Aarch64 { neon } => if neon {
            4
        } else {
            1
        },
        SimdSupport::Unknown => 1,
    }
}

/// Gets the optimal SIMD width, in 32-bit lanes, for the probed platform.
pub fn get_simd_width(support: SimdSupport) -> (width: usize)
    ensures
        width == simd_width_spec(support),
        width == 1 || width == 4 || width == 8 || width == 16,
{
    match support {
        SimdSupport::X86_64 { sse, avx: _, avx2, avx512f } => {
            if avx512f {
                16  // 16 lanes in 512 bits
            } else if avx2 {
                8  // 8 lanes in 256 bits
            } else if sse {
                4  // 4 lanes in 128 bits
            } else {
                1
            }
        },
        SimdSupport::Aarch64 { neon } => {
            if neon {
                4
            } else {
                1
            }
        },
        SimdSupport::Unknown => 1,
    }
}

/// Reports whether the address `addr` is a multiple of `align`.
pub fn is_aligned(addr: usize, align: usize) -> (aligned: bool)
    requires
        align != 0,
    ensures
        aligned == (addr % align == 0),
{
    addr % align == 0
}

/// Pads a dimension to the nearest multiple of the SIMD width.
pub fn pad_dimension(dim: usize, simd_width: usize) -> (padded: usize)
    requires
        simd_width > 0,
        dim + simd_width - 1 <= usize::MAX,
    ensures
        padded == pad_dimension_spec(dim as nat, simd_width as nat),
        padded % simd_width == 0,
        dim <= padded < dim + simd_width,
{
    proof {
        lemma_pad_dimension(dim as nat, simd_width as nat);
    }
    ((dim + (simd_width - 1)) / simd_width) * simd_width
}

} // verus!
