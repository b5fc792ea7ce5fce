//! Zyphyr: the verified core of an in-process vector similarity store.
//!
//! Vector components are IEEE-754 single-precision numbers, held here as raw
//! 32-bit words. This crate stores, pads, orders and partitions them; the
//! arithmetic on them (sums, square roots, quotients) is done by the caller,
//! who hands the results in as words.

pub mod error;
pub mod scalar;
pub mod utils;
pub mod vector;

pub use error::ZyphyrError;
pub use vector::{DistanceMetric, Measurements, Vector, VectorCollection};
pub use utils::alignment::{is_aligned, SimdSupport, SIMD_ALIGNMENT};

use vstd::prelude::*;

verus! {

/// The report on an x86-64 processor: one line per instruction set found.
pub open spec fn x86_report(avx: bool, avx2: bool, avx512f: bool) -> Seq<char> {
    (if avx {
        "AVX supported\n"@
    } else {
        Seq::empty()
    }) + (if avx2 {
        "AVX2 supported\n"@
    } else {
        Seq::empty()
    }) + (if avx512f {
        "AVX-512 supported\n"@
    } else {
        Seq::empty()
    })
}

/// The text that `simd_support_info` returns for a probe's finding.
pub open spec fn support_report(support: SimdSupport) -> Seq<char> {
    match support {
        SimdSupport::X86_64 { sse, avx, avx2, avx512f } => if !avx && !avx2 && !avx512f {
            "No advanced SIMD features detected"@
        } else {
            x86_report(avx, avx2, avx512f)
        },
        _ => "SIMD support detection not implemented for this architecture"@,
    }
}

/// Returns information about SIMD support on the probed platform.
pub fn simd_support_info(support: SimdSupport) -> (info: String)
    ensures
        info@ == support_report(support),
{
    match support {
        SimdSupport::X86_64 { sse: _, avx, avx2, avx512f } => {
            let mut info = String::new();
            if avx {
                info.append("AVX supported\n");
            }
            if avx2 {
                info.append("AVX2 supported\n");
            }
            if avx512f {
                info.append("AVX-512 supported\n");
            }
            assert(info@ =~= x86_report(avx, avx2, avx512f));
            if !avx && !avx2 && !avx512f {
                String::from_str("No advanced SIMD features detected")
            } else {
                info
            }
        },
        _ => String::from_str("SIMD support detection not implemented for this architecture"),
    }
}

} // verus!
