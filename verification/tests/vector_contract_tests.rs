use zyphyr::scalar::ONE;
use zyphyr::utils::alignment::{get_simd_width, SimdSupport};
use zyphyr::{DistanceMetric, Measurements, Vector, ZyphyrError};

fn words(data: &[f32]) -> Vec<u32> {
    data.iter().map(|x| x.to_bits()).collect()
}

fn floats(words: &[u32]) -> Vec<f32> {
    words.iter().map(|w| f32::from_bits(*w)).collect()
}

fn supports() -> Vec<SimdSupport> {
    vec![
        SimdSupport::Unknown,
        SimdSupport::Aarch64 { neon: true },
        SimdSupport::X86_64 { sse: true, avx: false, avx2: false, avx512f: false },
        SimdSupport::X86_64 { sse: true, avx: true, avx2: true, avx512f: false },
        SimdSupport::X86_64 { sse: true, avx: true, avx2: true, avx512f: true },
    ]
}

fn avx2() -> SimdSupport {
    SimdSupport::X86_64 { sse: true, avx: true, avx2: true, avx512f: false }
}

fn vector(id: &str, data: &[f32]) -> Vector {
    Vector::new(id.to_string(), words(data), avx2()).unwrap()
}

fn measured(value: f32) -> Measurements {
    Measurements {
        euclidean: value.to_bits(),
        dot: (value + 1.0).to_bits(),
        norm_a: 1.0f32.to_bits(),
        norm_b: 1.0f32.to_bits(),
        cosine: (value + 2.0).to_bits(),
    }
}

#[test]
fn construction_pads_to_whole_lanes_on_every_platform() {
    for support in supports() {
        let width = get_simd_width(support);
        for dim in 1..70usize {
            let data: Vec<u32> = (0..dim).map(|i| (i as f32 + 0.5).to_bits()).collect();
            let v = Vector::new(format!("v{}", dim), data.clone(), support).unwrap();
            assert_eq!(v.dim(), dim);
            assert_eq!(v.padded_dim() % width, 0);
            assert!(v.padded_dim() >= dim);
            assert!(v.padded_dim() < dim + width);
            assert_eq!(v.data(), &data[..]);
            assert_eq!(v.raw_data().len(), v.padded_dim());
            assert_eq!(&v.raw_data()[..dim], &data[..]);
            assert!(v.raw_data()[dim..].iter().all(|w| *w == 0));
        }
    }
}

#[test]
fn construction_has_exact_padded_lengths() {
    let data = words(&[1.0, 2.0, 3.0, 4.0, 5.0]);
    let padded = |support| Vector::new("v".to_string(), data.clone(), support).unwrap().padded_dim();
    assert_eq!(padded(SimdSupport::Unknown), 5);
    assert_eq!(padded(SimdSupport::Aarch64 { neon: true }), 8);
    assert_eq!(padded(avx2()), 8);
    assert_eq!(
        padded(SimdSupport::X86_64 { sse: true, avx: true, avx2: true, avx512f: true }),
        16
    );
}

#[test]
fn empty_construction_is_rejected() {
    for support in supports() {
        assert!(matches!(
            Vector::new("x".to_string(), vec![], support),
            Err(ZyphyrError::InvalidDimension { expected: 1, got: 0 })
        ));
        assert!(matches!(
            Vector::from_slice("x".to_string(), &[], support),
            Err(ZyphyrError::InvalidDimension { expected: 1, got: 0 })
        ));
    }
}

#[test]
fn from_slice_copies_what_new_moves() {
    let data = words(&[1.5, -2.5, 0.0, 8.0, 9.0]);
    let moved = Vector::new("m".to_string(), data.clone(), avx2()).unwrap();
    let copied = Vector::from_slice("c".to_string(), &data, avx2()).unwrap();
    assert_eq!(copied.id(), "c");
    assert_eq!(copied.data(), moved.data());
    assert_eq!(copied.raw_data(), moved.raw_data());
    assert_eq!(copied.dim(), 5);
    assert_eq!(copied.padded_dim(), 8);
    assert!(!copied.is_normalized());
}

#[test]
fn a_new_vector_is_not_normalized() {
    assert!(!vector("v", &[3.0, 4.0]).is_normalized());
}

#[test]
fn the_buffer_is_always_aligned() {
    for i in 0..50usize {
        let v = vector(&format!("v{}", i), &vec![1.0; i + 1]);
        assert!(v.is_aligned());
        assert_eq!(v.raw_data().as_ptr() as usize % 32, 0);
    }
}

#[test]
fn clone_keeps_everything_in_a_buffer_of_its_own() {
    let mut v = vector("orig", &[3.0, 4.0, 12.0]);
    let copy = v.clone();
    assert_eq!(copy.id(), "orig");
    assert_eq!(copy.data(), v.data());
    assert_eq!(copy.raw_data(), v.raw_data());
    assert_eq!(copy.padded_dim(), v.padded_dim());
    assert!(copy.is_aligned());
    v.normalize(13.0f32.to_bits(), &words(&[3.0 / 13.0, 4.0 / 13.0, 12.0 / 13.0]));
    assert_eq!(floats(copy.data()), vec![3.0, 4.0, 12.0]);
    assert!(!copy.is_normalized());
    assert!(v.is_normalized());
}

#[test]
fn normalize_stores_the_scaled_components() {
    let mut v = vector("v", &[3.0, 4.0]);
    v.normalize(5.0f32.to_bits(), &words(&[0.6, 0.8]));
    assert!(v.is_normalized());
    assert_eq!(floats(v.data()), vec![0.6, 0.8]);
    assert_eq!(v.dim(), 2);
    assert_eq!(v.padded_dim(), 8);
    assert_eq!(&v.raw_data()[2..], &[0u32; 6]);
    assert_eq!(v.id(), "v");
}

#[test]
fn normalize_is_idempotent() {
    let mut v = vector("v", &[3.0, 4.0]);
    v.normalize(5.0f32.to_bits(), &words(&[0.6, 0.8]));
    let once = v.raw_data().to_vec();
    // whatever a second call is handed, nothing changes
    v.normalize(1.0f32.to_bits(), &words(&[0.6, 0.8]));
    assert_eq!(v.raw_data(), &once[..]);
    v.normalize(2.0f32.to_bits(), &words(&[9.0, 9.0]));
    assert_eq!(v.raw_data(), &once[..]);
    assert!(v.is_normalized());
}

#[test]
fn normalize_leaves_a_zero_vector_alone() {
    let mut v = vector("zero", &[0.0, 0.0, 0.0]);
    let before = v.raw_data().to_vec();
    // 0.0 / 0.0 is not a number; none of it may be stored
    v.normalize(0.0f32.to_bits(), &words(&[f32::NAN, f32::NAN, f32::NAN]));
    assert_eq!(v.raw_data(), &before[..]);
    assert!(!v.is_normalized());
    v.normalize((-0.0f32).to_bits(), &words(&[1.0, 1.0, 1.0]));
    assert_eq!(v.raw_data(), &before[..]);
    assert!(!v.is_normalized());
}

#[test]
fn normalize_ignores_a_magnitude_that_is_not_above_zero() {
    let mut v = vector("v", &[1.0, 2.0]);
    let before = v.raw_data().to_vec();
    v.normalize(f32::NAN.to_bits(), &words(&[5.0, 5.0]));
    assert_eq!(v.raw_data(), &before[..]);
    assert!(!v.is_normalized());
    v.normalize((-3.0f32).to_bits(), &words(&[5.0, 5.0]));
    assert_eq!(v.raw_data(), &before[..]);
    assert!(!v.is_normalized());
    // a later attempt with a usable magnitude goes through
    v.normalize(f32::INFINITY.to_bits(), &words(&[0.0, 0.0]));
    assert!(v.is_normalized());
    assert_eq!(floats(v.data()), vec![0.0, 0.0]);
}

#[test]
fn memory_footprint_is_the_sum_of_its_parts() {
    let v = vector("abc", &[1.0; 10]);
    assert_eq!(v.padded_dim(), 16);
    assert_eq!(v.memory_footprint(3), std::mem::size_of::<Vector>() + 3 + 16 * 4);
    assert_eq!(v.memory_footprint(0), std::mem::size_of::<Vector>() + 64);
    assert_eq!(v.memory_footprint(usize::MAX), usize::MAX);
    assert_eq!(v.memory_footprint(usize::MAX - std::mem::size_of::<Vector>()), usize::MAX);
}

#[test]
fn memory_usage_counts_the_identifier() {
    let v = vector("a-rather-long-identifier", &[1.0; 10]);
    assert!(v.memory_usage() >= v.memory_footprint("a-rather-long-identifier".len()));
    let short = vector("a", &[1.0; 10]);
    assert!(v.memory_usage() > short.memory_footprint(0));
}

#[test]
fn each_metric_reads_its_own_measurement() {
    let a = vector("a", &[1.0, 2.0]);
    let b = vector("b", &[3.0, 4.0]);
    let m = measured(7.0);
    assert_eq!(DistanceMetric::Euclidean.compute(&a, &b, &m).unwrap(), 7.0f32.to_bits());
    assert_eq!(DistanceMetric::DotProduct.compute(&a, &b, &m).unwrap(), 8.0f32.to_bits());
    assert_eq!(DistanceMetric::Cosine.compute(&a, &b, &m).unwrap(), 9.0f32.to_bits());
    assert_eq!(DistanceMetric::Euclidean.value(&m), 7.0f32.to_bits());
    assert_eq!(DistanceMetric::DotProduct.value(&m), 8.0f32.to_bits());
    assert_eq!(DistanceMetric::Cosine.value(&m), 9.0f32.to_bits());
}

#[test]
fn dot_product_is_not_negated() {
    let a = vector("a", &[1.0, 2.0]);
    let b = vector("b", &[-3.0, -4.0]);
    let m = Measurements { dot: (-11.0f32).to_bits(), ..measured(0.0) };
    assert_eq!(
        f32::from_bits(DistanceMetric::DotProduct.compute(&a, &b, &m).unwrap()),
        -11.0
    );
}

#[test]
fn cosine_of_a_zero_norm_is_one() {
    let a = vector("a", &[0.0, 0.0]);
    let b = vector("b", &[1.0, 0.0]);
    let nan = f32::NAN.to_bits();
    let zero_a = Measurements { norm_a: 0, cosine: nan, ..measured(0.0) };
    let zero_b = Measurements { norm_b: (-0.0f32).to_bits(), cosine: nan, ..measured(0.0) };
    let both = Measurements { norm_a: 0, norm_b: 0, cosine: nan, ..measured(0.0) };
    assert_eq!(DistanceMetric::Cosine.compute(&a, &b, &zero_a).unwrap(), ONE);
    assert_eq!(DistanceMetric::Cosine.compute(&b, &a, &zero_b).unwrap(), ONE);
    assert_eq!(DistanceMetric::Cosine.compute(&a, &a, &both).unwrap(), ONE);
    assert_eq!(f32::from_bits(ONE), 1.0);
    // a norm that is tiny but not zero does not count
    let tiny = Measurements { norm_a: 1, cosine: 0.25f32.to_bits(), ..measured(0.0) };
    assert_eq!(DistanceMetric::Cosine.compute(&a, &b, &tiny).unwrap(), 0.25f32.to_bits());
}

#[test]
fn vectors_of_different_dimension_cannot_be_compared() {
    let a = vector("a", &[1.0, 2.0]);
    let b = vector("b", &[1.0, 2.0, 3.0]);
    for metric in [DistanceMetric::Euclidean, DistanceMetric::Cosine, DistanceMetric::DotProduct] {
        assert!(matches!(
            metric.compute(&a, &b, &measured(0.0)),
            Err(ZyphyrError::InvalidDimension { expected: 2, got: 3 })
        ));
        assert!(matches!(
            metric.compute(&b, &a, &measured(0.0)),
            Err(ZyphyrError::InvalidDimension { expected: 3, got: 2 })
        ));
    }
}

#[test]
fn compute_leaves_both_vectors_as_they_were() {
    let a = vector("a", &[1.0, 2.0]);
    let b = vector("b", &[3.0, 4.0]);
    let (raw_a, raw_b) = (a.raw_data().to_vec(), b.raw_data().to_vec());
    DistanceMetric::Cosine.compute(&a, &b, &measured(1.0)).unwrap();
    assert_eq!(a.raw_data(), &raw_a[..]);
    assert_eq!(b.raw_data(), &raw_b[..]);
}

#[test]
fn batch_distance_keeps_the_order_of_its_input() {
    let query = vector("q", &[0.0, 0.0]);
    let others = vec![vector("a", &[1.0, 0.0]), vector("b", &[2.0, 0.0]), vector("c", &[3.0, 0.0])];
    let refs: Vec<&Vector> = others.iter().collect();
    let ms = vec![measured(3.0), measured(1.0), measured(2.0)];
    assert_eq!(
        query.batch_distance(&refs, DistanceMetric::Euclidean, &ms).unwrap(),
        words(&[3.0, 1.0, 2.0])
    );
    assert_eq!(
        query.batch_distance(&refs, DistanceMetric::DotProduct, &ms).unwrap(),
        words(&[4.0, 2.0, 3.0])
    );
    assert_eq!(
        query.batch_distance(&[], DistanceMetric::Euclidean, &[]).unwrap(),
        Vec::<u32>::new()
    );
}

#[test]
fn batch_distance_fails_on_the_first_mismatch() {
    let query = vector("q", &[0.0, 0.0]);
    let others = vec![
        vector("a", &[1.0, 0.0]),
        vector("b", &[2.0, 0.0, 0.0]),
        vector("c", &[3.0, 0.0, 0.0, 0.0]),
    ];
    let refs: Vec<&Vector> = others.iter().collect();
    let ms = vec![measured(3.0), measured(1.0), measured(2.0)];
    assert!(matches!(
        query.batch_distance(&refs, DistanceMetric::Euclidean, &ms),
        Err(ZyphyrError::InvalidDimension { expected: 2, got: 3 })
    ));
}

#[test]
fn identifier_storage_is_within_its_bounds() {
    let id = "an-identifier-of-some-length";
    let v = vector(id, &[1.0; 3]);
    assert!(v.id_storage() >= id.len());
    assert!(v.id_storage() <= isize::MAX as usize);
    assert_eq!(v.memory_usage(), v.memory_footprint(v.id_storage()));
    assert!(v.memory_usage() < usize::MAX);
}
