use zyphyr::utils::alignment::SimdSupport;
use zyphyr::{DistanceMetric, Measurements, Vector, VectorCollection, ZyphyrError};

fn words(data: &[f32]) -> Vec<u32> {
    data.iter().map(|x| x.to_bits()).collect()
}

fn floats(words: &[u32]) -> Vec<f32> {
    words.iter().map(|w| f32::from_bits(*w)).collect()
}

fn vector(id: &str, data: &[f32]) -> Vector {
    let support = SimdSupport::X86_64 { sse: true, avx: false, avx2: false, avx512f: false };
    Vector::new(id.to_string(), words(data), support).unwrap()
}

/// A measurement whose Euclidean value is `value`.
fn at_distance(value: f32) -> Measurements {
    Measurements {
        euclidean: value.to_bits(),
        dot: (-value).to_bits(),
        norm_a: 1.0f32.to_bits(),
        norm_b: 1.0f32.to_bits(),
        cosine: value.to_bits(),
    }
}

fn collection_of(ids: &[&str]) -> VectorCollection {
    let mut collection = VectorCollection::new();
    for (i, id) in ids.iter().enumerate() {
        collection.insert(vector(id, &[i as f32, 1.0])).unwrap();
    }
    collection
}

fn slot_ids(collection: &VectorCollection) -> Vec<String> {
    collection.as_slice().iter().map(|v| v.id().to_string()).collect()
}

fn found_ids(found: &[(String, u32)]) -> Vec<&str> {
    found.iter().map(|(id, _)| id.as_str()).collect()
}

#[test]
fn a_new_collection_is_empty() {
    let collection = VectorCollection::new();
    assert_eq!(collection.len(), 0);
    assert!(collection.is_empty());
    assert!(!collection.contains("a"));
    assert!(collection.get("a").is_none());
    assert_eq!(collection.as_slice().len(), 0);
    let reserved = VectorCollection::with_capacity(100);
    assert_eq!(reserved.len(), 0);
    assert!(reserved.is_empty());
}

#[test]
fn insert_appends_in_slot_order() {
    let collection = collection_of(&["a", "b", "c"]);
    assert_eq!(collection.len(), 3);
    assert!(!collection.is_empty());
    assert_eq!(slot_ids(&collection), vec!["a", "b", "c"]);
    assert!(collection.contains("b"));
    assert_eq!(floats(collection.get("c").unwrap().data()), vec![2.0, 1.0]);
}

#[test]
fn a_duplicate_identifier_is_rejected_and_changes_nothing() {
    let mut collection = VectorCollection::new();
    collection.insert(vector("a", &[1.0, 2.0])).unwrap();
    let second = collection.insert(vector("a", &[3.0, 4.0]));
    match second {
        Err(ZyphyrError::Other(message)) => assert_eq!(message, "Duplicate ID: a"),
        other => panic!("unexpected: {:?}", other),
    }
    assert_eq!(collection.len(), 1);
    assert_eq!(floats(collection.get("a").unwrap().data()), vec![1.0, 2.0]);
}

#[test]
fn a_wrong_dimension_is_rejected_and_changes_nothing() {
    let mut collection = collection_of(&["a", "b"]);
    assert!(matches!(
        collection.insert(vector("c", &[1.0, 2.0, 3.0])),
        Err(ZyphyrError::InvalidDimension { expected: 2, got: 3 })
    ));
    assert!(matches!(
        collection.insert(vector("d", &[1.0])),
        Err(ZyphyrError::InvalidDimension { expected: 2, got: 1 })
    ));
    assert_eq!(collection.len(), 2);
    assert!(!collection.contains("c"));
    assert!(!collection.contains("d"));
}

#[test]
fn a_wrong_dimension_is_reported_before_a_duplicate() {
    let mut collection = collection_of(&["a"]);
    assert!(matches!(
        collection.insert(vector("a", &[1.0, 2.0, 3.0])),
        Err(ZyphyrError::InvalidDimension { expected: 2, got: 3 })
    ));
}

#[test]
fn the_dimension_stays_fixed_when_the_collection_is_emptied() {
    let mut collection = collection_of(&["a"]);
    assert!(collection.remove("a").is_some());
    assert!(collection.is_empty());
    assert!(matches!(
        collection.insert(vector("b", &[1.0, 2.0, 3.0])),
        Err(ZyphyrError::InvalidDimension { expected: 2, got: 3 })
    ));
    collection.insert(vector("b", &[1.0, 2.0])).unwrap();
    assert_eq!(collection.len(), 1);
}

#[test]
fn remove_moves_the_last_vector_into_the_gap() {
    let mut collection = collection_of(&["a", "b", "c", "d"]);
    let removed = collection.remove("b").unwrap();
    assert_eq!(removed.id(), "b");
    assert_eq!(floats(removed.data()), vec![1.0, 1.0]);
    assert_eq!(slot_ids(&collection), vec!["a", "d", "c"]);
    assert_eq!(collection.len(), 3);
    assert!(!collection.contains("b"));
    assert!(collection.get("b").is_none());
}

#[test]
fn remove_leaves_every_other_vector_retrievable() {
    let ids = ["a", "b", "c", "d", "e"];
    for gone in ids {
        let mut collection = collection_of(&ids);
        assert!(collection.remove(gone).is_some());
        assert_eq!(collection.len(), 4);
        assert!(!collection.contains(gone));
        for (i, id) in ids.iter().enumerate() {
            if *id != gone {
                assert!(collection.contains(id));
                let kept = collection.get(id).unwrap();
                assert_eq!(kept.id(), *id);
                assert_eq!(floats(kept.data()), vec![i as f32, 1.0]);
            }
        }
    }
}

#[test]
fn remove_of_the_last_slot_and_of_the_only_vector() {
    let mut collection = collection_of(&["a", "b", "c"]);
    assert_eq!(collection.remove("c").unwrap().id(), "c");
    assert_eq!(slot_ids(&collection), vec!["a", "b"]);
    assert_eq!(collection.remove("a").unwrap().id(), "a");
    assert_eq!(slot_ids(&collection), vec!["b"]);
    assert_eq!(collection.remove("b").unwrap().id(), "b");
    assert!(collection.is_empty());
}

#[test]
fn remove_of_an_absent_identifier_changes_nothing() {
    let mut collection = collection_of(&["a", "b"]);
    assert!(collection.remove("z").is_none());
    assert_eq!(slot_ids(&collection), vec!["a", "b"]);
    let mut empty = VectorCollection::new();
    assert!(empty.remove("a").is_none());
}

#[test]
fn a_removed_identifier_can_be_stored_again() {
    let mut collection = collection_of(&["a", "b", "c"]);
    collection.remove("a").unwrap();
    collection.insert(vector("a", &[9.0, 9.0])).unwrap();
    assert_eq!(slot_ids(&collection), vec!["c", "b", "a"]);
    assert_eq!(floats(collection.get("a").unwrap().data()), vec![9.0, 9.0]);
}

#[test]
fn get_mut_changes_the_stored_vector() {
    let mut collection = VectorCollection::new();
    collection.insert(vector("a", &[3.0, 4.0])).unwrap();
    collection.insert(vector("b", &[6.0, 8.0])).unwrap();
    {
        let stored = collection.get_mut("a").unwrap();
        stored.normalize(5.0f32.to_bits(), &words(&[0.6, 0.8]));
    }
    assert!(collection.get("a").unwrap().is_normalized());
    assert_eq!(floats(collection.get("a").unwrap().data()), vec![0.6, 0.8]);
    assert!(!collection.get("b").unwrap().is_normalized());
    assert!(collection.get_mut("z").is_none());
    assert_eq!(collection.len(), 2);
}

#[test]
fn batch_insert_stores_all_in_order() {
    let mut collection = collection_of(&["a"]);
    let batch = vec![vector("b", &[1.0, 1.0]), vector("c", &[2.0, 2.0])];
    collection.batch_insert(batch).unwrap();
    assert_eq!(slot_ids(&collection), vec!["a", "b", "c"]);
    collection.batch_insert(vec![]).unwrap();
    assert_eq!(collection.len(), 3);
}

#[test]
fn batch_insert_stops_at_the_first_failure_and_keeps_what_went_before() {
    let mut collection = collection_of(&["a"]);
    let batch = vec![
        vector("b", &[1.0, 1.0]),
        vector("a", &[2.0, 2.0]),
        vector("c", &[3.0, 3.0]),
    ];
    match collection.batch_insert(batch) {
        Err(ZyphyrError::Other(message)) => assert_eq!(message, "Duplicate ID: a"),
        other => panic!("unexpected: {:?}", other),
    }
    assert_eq!(slot_ids(&collection), vec!["a", "b"]);
    assert!(!collection.contains("c"));

    let wrong = vec![vector("d", &[1.0, 1.0]), vector("e", &[1.0]), vector("f", &[1.0, 1.0])];
    assert!(matches!(
        collection.batch_insert(wrong),
        Err(ZyphyrError::InvalidDimension { expected: 2, got: 1 })
    ));
    assert_eq!(slot_ids(&collection), vec!["a", "b", "d"]);
}

#[test]
fn batch_insert_rejects_a_duplicate_within_the_batch() {
    let mut collection = VectorCollection::new();
    let batch = vec![vector("x", &[1.0]), vector("x", &[2.0])];
    assert!(matches!(collection.batch_insert(batch), Err(ZyphyrError::Other(_))));
    assert_eq!(collection.len(), 1);
    assert_eq!(floats(collection.get("x").unwrap().data()), vec![1.0]);
}

#[test]
fn search_returns_the_nearest_first() {
    let collection = collection_of(&["a", "b", "c", "d"]);
    let query = vector("q", &[0.0, 0.0]);
    let measured = vec![at_distance(4.0), at_distance(1.0), at_distance(3.0), at_distance(2.0)];
    let found = collection.search(&query, 3, DistanceMetric::Euclidean, &measured).unwrap();
    assert_eq!(
        found,
        vec![
            ("b".to_string(), 1.0f32.to_bits()),
            ("d".to_string(), 2.0f32.to_bits()),
            ("c".to_string(), 3.0f32.to_bits()),
        ]
    );
}

#[test]
fn search_returns_everything_when_k_is_large() {
    let collection = collection_of(&["a", "b", "c"]);
    let query = vector("q", &[0.0, 0.0]);
    let measured = vec![at_distance(2.0), at_distance(3.0), at_distance(1.0)];
    for k in [3usize, 4, 1000, usize::MAX] {
        let found = collection.search(&query, k, DistanceMetric::Euclidean, &measured).unwrap();
        assert_eq!(found_ids(&found), vec!["c", "a", "b"]);
    }
    let none = collection.search(&query, 0, DistanceMetric::Euclidean, &measured).unwrap();
    assert!(none.is_empty());
}

#[test]
fn search_keeps_ties_in_slot_order() {
    let collection = collection_of(&["a", "b", "c", "d"]);
    let query = vector("q", &[0.0, 0.0]);
    let measured = vec![at_distance(1.0), at_distance(0.0), at_distance(1.0), at_distance(0.0)];
    let found = collection.search(&query, 4, DistanceMetric::Euclidean, &measured).unwrap();
    assert_eq!(found_ids(&found), vec!["b", "d", "a", "c"]);
}

#[test]
fn search_ranks_by_the_metric_it_is_given() {
    let collection = collection_of(&["a", "b", "c"]);
    let query = vector("q", &[0.0, 0.0]);
    let measured = vec![at_distance(1.0), at_distance(2.0), at_distance(3.0)];
    // the dot product of `at_distance` is the negated value
    let found = collection.search(&query, 3, DistanceMetric::DotProduct, &measured).unwrap();
    assert_eq!(found_ids(&found), vec!["c", "b", "a"]);
    assert_eq!(f32::from_bits(found[0].1), -3.0);
    let found = collection.search(&query, 3, DistanceMetric::Cosine, &measured).unwrap();
    assert_eq!(found_ids(&found), vec!["a", "b", "c"]);
}

#[test]
fn search_does_not_fail_on_what_is_not_a_number() {
    let collection = collection_of(&["a", "b", "c", "d"]);
    let query = vector("q", &[0.0, 0.0]);
    let measured =
        vec![at_distance(2.0), at_distance(f32::NAN), at_distance(1.0), at_distance(0.5)];
    let found = collection.search(&query, 4, DistanceMetric::Euclidean, &measured).unwrap();
    assert_eq!(found.len(), 4);
    let mut ids = found_ids(&found);
    ids.sort();
    assert_eq!(ids, vec!["a", "b", "c", "d"]);
}

#[test]
fn search_rejects_a_query_of_another_dimension() {
    let collection = collection_of(&["a", "b"]);
    let query = vector("q", &[0.0, 0.0, 0.0]);
    let measured = vec![at_distance(1.0), at_distance(2.0)];
    assert!(matches!(
        collection.search(&query, 1, DistanceMetric::Euclidean, &measured),
        Err(ZyphyrError::InvalidDimension { expected: 3, got: 2 })
    ));
}

#[test]
fn search_of_an_empty_collection_finds_nothing() {
    let collection = VectorCollection::new();
    let query = vector("q", &[0.0, 0.0, 0.0]);
    let found = collection.search(&query, 5, DistanceMetric::Euclidean, &[]).unwrap();
    assert!(found.is_empty());
}

#[test]
fn search_follows_the_slots_after_a_removal() {
    let mut collection = collection_of(&["a", "b", "c", "d"]);
    collection.remove("a").unwrap();
    assert_eq!(slot_ids(&collection), vec!["d", "b", "c"]);
    let query = vector("q", &[0.0, 0.0]);
    let measured = vec![at_distance(3.0), at_distance(1.0), at_distance(2.0)];
    let found = collection.search(&query, 2, DistanceMetric::Euclidean, &measured).unwrap();
    assert_eq!(found_ids(&found), vec!["b", "c"]);
}

#[test]
fn chunks_of_three_over_ten() {
    let ids: Vec<String> = (0..10).map(|i| format!("v{}", i)).collect();
    let refs: Vec<&str> = ids.iter().map(|s| s.as_str()).collect();
    let collection = collection_of(&refs);
    let chunks = collection.chunks(3);
    let lengths: Vec<usize> = chunks.iter().map(|c| c.len()).collect();
    assert_eq!(lengths, vec![3, 3, 3, 1]);
    let seen: Vec<&str> = chunks.iter().flat_map(|c| c.iter().map(|v| v.id())).collect();
    assert_eq!(seen, refs);
}

#[test]
fn chunks_cover_the_collection_for_every_size() {
    for len in 0..20usize {
        let ids: Vec<String> = (0..len).map(|i| format!("v{}", i)).collect();
        let refs: Vec<&str> = ids.iter().map(|s| s.as_str()).collect();
        let collection = collection_of(&refs);
        for size in 1..25usize {
            let chunks = collection.chunks(size);
            assert_eq!(chunks.len(), (len + size - 1) / size);
            assert_eq!(chunks.iter().map(|c| c.len()).sum::<usize>(), len);
            assert!(chunks.iter().all(|c| c.len() <= size && !c.is_empty()));
            for (i, chunk) in chunks.iter().enumerate() {
                if i + 1 < chunks.len() {
                    assert_eq!(chunk.len(), size);
                }
                for (j, v) in chunk.iter().enumerate() {
                    assert_eq!(v.id(), refs[i * size + j]);
                }
            }
        }
    }
}

#[test]
fn chunks_with_a_huge_size() {
    let collection = collection_of(&["a", "b"]);
    let chunks = collection.chunks(usize::MAX);
    assert_eq!(chunks.len(), 1);
    assert_eq!(chunks[0].len(), 2);
}

#[test]
fn memory_usage_grows_with_each_vector() {
    let mut collection = VectorCollection::new();
    let empty = collection.memory_usage();
    assert_eq!(empty, std::mem::size_of::<VectorCollection>());
    let v = vector("abc", &[1.0; 10]);
    let own = v.memory_usage();
    collection.insert(v).unwrap();
    let entry = std::mem::size_of::<String>() + std::mem::size_of::<usize>();
    assert_eq!(collection.memory_usage(), empty + own + entry);
    assert!(own >= std::mem::size_of::<Vector>() + 3 + 12 * 4);
}

#[test]
fn collection_footprint_is_the_sum_of_its_parts() {
    let mut collection = VectorCollection::new();
    collection.insert(vector("a", &[1.0; 3])).unwrap();
    collection.insert(vector("bc", &[2.0; 3])).unwrap();
    let entry = std::mem::size_of::<String>() + std::mem::size_of::<usize>();
    let each = std::mem::size_of::<Vector>() + 4 * 4;
    assert_eq!(
        collection.memory_footprint(&[1, 2]),
        (each + 1) + (each + 2) + 2 * entry + std::mem::size_of::<VectorCollection>()
    );
    assert_eq!(
        collection.memory_footprint(&[0, 100]),
        2 * each + 100 + 2 * entry + std::mem::size_of::<VectorCollection>()
    );
    assert_eq!(collection.memory_footprint(&[usize::MAX, 0]), usize::MAX);
    assert_eq!(
        VectorCollection::new().memory_footprint(&[]),
        std::mem::size_of::<VectorCollection>()
    );
}

#[test]
fn memory_usage_is_the_footprint_with_the_reserved_storage() {
    let collection = collection_of(&["a", "bb", "a-much-longer-identifier"]);
    let storage: Vec<usize> = collection.as_slice().iter().map(|v| v.id_storage()).collect();
    assert_eq!(collection.memory_usage(), collection.memory_footprint(&storage));
    assert!(collection.memory_usage() < usize::MAX);
}

#[test]
fn search_names_every_vector_once() {
    let collection = collection_of(&["a", "b", "c", "d", "e"]);
    let query = vector("q", &[0.0, 0.0]);
    let measured = vec![
        at_distance(2.0),
        at_distance(2.0),
        at_distance(-1.0),
        at_distance(7.0),
        at_distance(0.0),
    ];
    let found = collection.search(&query, 9, DistanceMetric::Euclidean, &measured).unwrap();
    assert_eq!(found_ids(&found), vec!["c", "e", "a", "b", "d"]);
    let values: Vec<f32> = found.iter().map(|(_, w)| f32::from_bits(*w)).collect();
    assert_eq!(values, vec![-1.0, 0.0, 2.0, 2.0, 7.0]);
}
