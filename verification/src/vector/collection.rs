//! The collection: vectors in slots, found again by identifier.

use crate::error::ZyphyrError;
use crate::scalar::{less_than, order_key};
use crate::vector::distance::{metric_value, DistanceMetric, Measurements};
use crate::vector::ranking::{
    all_numbers, is_ranking, lemma_ranking_ascends, lemma_ranking_unique, rank,
};
use crate::vector::vector::{
    is_storage_for, saturated, vector_footprint, Vector, VectorView,
};
use vstd::layout::size_of;
use vstd::arithmetic::div_mod::*;
use vstd::arithmetic::mul::*;
use vstd::hash_map::StringHashMap;
use vstd::slice::slice_subrange;
use vstd::prelude::*;

verus! {

/// What a collection is, seen from outside.
pub struct CollectionView {
    /// The stored vectors, by slot.
    pub slots: Seq<VectorView>,
    /// The slot of each stored identifier.
    pub index: Map<Seq<char>, usize>,
    /// The dimension the collection is fixed to, once a vector has been
    /// stored. It stays fixed when the collection is emptied again.
    pub dimension: Option<usize>,
}

impl CollectionView {
    /// What holds of every collection: the index leads from each stored
    /// identifier to its slot and holds nothing else, so no identifier is
    /// stored twice; and all stored vectors have the fixed dimension.
    pub open spec fn wf(self) -> bool {
        &&& forall|i: int|
            0 <= i < self.slots.len() ==> self.index.contains_key((#[trigger] self.slots[i]).id)
                && self.index[self.slots[i].id] == i
        &&& forall|id: Seq<char>| #[trigger]
            self.index.contains_key(id) ==> self.index[id] < self.slots.len()
                && self.slots[self.index[id] as int].id == id
        &&& forall|i: int| 0 <= i < self.slots.len() ==> (#[trigger] self.slots[i]).wf()
        &&& self.slots.len() > 0 ==> self.dimension is Some
        &&& forall|i: int|
            0 <= i < self.slots.len() && self.dimension is Some ==> (#[trigger] self.slots[i]).words.len()
                == self.dimension->0
    }

    /// Whether a vector may be stored: it has the fixed dimension, where one
    /// is fixed, and its identifier is not in use.
    pub open spec fn accepts(self, v: VectorView) -> bool {
        &&& self.dimension is Some ==> self.dimension->0 == v.words.len()
        &&& !self.index.contains_key(v.id)
    }

    /// Whether `e` is the error that meets a vector which may not be
    /// stored. A wrong dimension is reported before a duplicate identifier.
    pub open spec fn rejects_with(self, v: VectorView, e: ZyphyrError) -> bool {
        if self.dimension is Some && self.dimension->0 != v.words.len() {
            e == (ZyphyrError::InvalidDimension {
                expected: self.dimension->0,
                got: v.words.len() as usize,
            })
        } else {
            &&& self.index.contains_key(v.id)
            &&& e matches ZyphyrError::Other(message)
            &&& message@ == "Duplicate ID: "@ + v.id
        }
    }

    /// The collection with `v` stored in a new last slot.
    pub open spec fn inserted(self, v: VectorView) -> CollectionView {
        CollectionView {
            slots: self.slots.push(v),
            index: self.index.insert(v.id, self.slots.len() as usize),
            dimension: Some(v.words.len() as usize),
        }
    }

    /// Storing an accepted vector leaves a collection that is one longer;
    /// the vector is found under its identifier, and whatever was stored
    /// before is still found under its own, unchanged.
    pub proof fn lemma_inserted(self, v: VectorView)
        requires
            self.wf(),
            v.wf(),
            self.accepts(v),
            self.slots.len() < usize::MAX,
        ensures
            self.inserted(v).wf(),
            self.inserted(v).slots.len() == self.slots.len() + 1,
            self.inserted(v).index.contains_key(v.id),
            self.inserted(v).slots[self.inserted(v).index[v.id] as int] == v,
            forall|other: Seq<char>| #[trigger]
                self.index.contains_key(other) ==> {
                    &&& self.inserted(v).index.contains_key(other)
                    &&& self.inserted(v).slots[self.inserted(v).index[other] as int]
                        == self.slots[self.index[other] as int]
                },
    {
        let after = self.inserted(v);
        assert forall|i: int| 0 <= i < after.slots.len() implies after.index.contains_key(
            (#[trigger] after.slots[i]).id,
        ) && after.index[after.slots[i].id] == i && after.slots[i].wf() && after.slots[i].words.len()
            == after.dimension->0 by {
            if i < self.slots.len() {
                assert(after.slots[i] == self.slots[i]);
            }
        }
        assert forall|id: Seq<char>| #[trigger] after.index.contains_key(id) implies after.index[id]
            < after.slots.len() && after.slots[after.index[id] as int].id == id by {
            if id != v.id {
                assert(self.index.contains_key(id));
            }
        }
    }

    /// A collection stays well-formed when a stored vector is exchanged in
    /// place for one with the same identifier and dimension.
    pub proof fn lemma_changed_in_place(self, slot: int, v: VectorView)
        requires
            self.wf(),
            0 <= slot < self.slots.len(),
            v.wf(),
            v.id == self.slots[slot].id,
            v.words.len() == self.slots[slot].words.len(),
        ensures
            (CollectionView { slots: self.slots.update(slot, v), ..self }).wf(),
    {
        let after = CollectionView { slots: self.slots.update(slot, v), ..self };
        assert forall|i: int| 0 <= i < after.slots.len() implies after.index.contains_key(
            (#[trigger] after.slots[i]).id,
        ) && after.index[after.slots[i].id] == i && after.slots[i].wf() && (after.dimension
            is Some ==> after.slots[i].words.len() == after.dimension->0) by {
            if i != slot {
                assert(after.slots[i] == self.slots[i]);
            } else {
                assert(self.slots[slot].wf());
            }
        }
        assert forall|id: Seq<char>| #[trigger] after.index.contains_key(id) implies after.index[id]
            < after.slots.len() && after.slots[after.index[id] as int].id == id by {
            assert(self.index.contains_key(id));
        }
    }

    /// The collection without the vector under `id`: the last vector takes
    /// the vacated slot, and the index follows it. The fixed dimension
    /// stays.
    pub open spec fn removed(self, id: Seq<char>) -> CollectionView
        recommends
            self.index.contains_key(id),
    {
        let slot = self.index[id] as int;
        let last = self.slots.last();
        CollectionView {
            slots: self.slots.update(slot, last).drop_last(),
            index: if last.id == id {
                self.index.remove(id)
            } else {
                self.index.remove(id).insert(last.id, slot as usize)
            },
            dimension: self.dimension,
        }
    }

    /// Removing a stored vector leaves a collection that is one shorter and
    /// does not hold the identifier; whatever else was stored is still
    /// found under its identifier, unchanged.
    pub proof fn lemma_removed(self, id: Seq<char>)
        requires
            self.wf(),
            self.index.contains_key(id),
        ensures
            self.removed(id).wf(),
            self.removed(id).slots.len() == self.slots.len() - 1,
            !self.removed(id).index.contains_key(id),
            forall|other: Seq<char>|
                other != id && #[trigger] self.index.contains_key(other) ==> {
                    &&& self.removed(id).index.contains_key(other)
                    &&& self.removed(id).slots[self.removed(id).index[other] as int]
                        == self.slots[self.index[other] as int]
                },
            forall|other: Seq<char>| #[trigger]
                self.removed(id).index.contains_key(other) ==> self.index.contains_key(other),
    {
        let slot = self.index[id] as int;
        let last_slot = self.slots.len() - 1;
        let last = self.slots.last();
        let after = self.removed(id);
        assert(self.slots[last_slot] == last);
        assert(last.id == id <==> slot == last_slot);
        assert forall|i: int| 0 <= i < after.slots.len() implies after.index.contains_key(
            (#[trigger] after.slots[i]).id,
        ) && after.index[after.slots[i].id] == i by {
            if i == slot {
                assert(after.slots[i] == last);
            } else {
                assert(after.slots[i] == self.slots[i]);
            }
        }
        assert forall|other: Seq<char>| #[trigger]
            after.index.contains_key(other) implies after.index[other] < after.slots.len()
            && after.slots[after.index[other] as int].id == other by {
            assert(self.index.contains_key(other));
        }
        assert forall|i: int| 0 <= i < after.slots.len() implies (#[trigger] after.slots[i]).wf()
            && (after.dimension is Some ==> after.slots[i].words.len() == after.dimension->0) by {
            if i == slot {
                assert(after.slots[i] == self.slots[last_slot]);
            } else {
                assert(after.slots[i] == self.slots[i]);
            }
        }
    }

    /// Whether each of `vs` is accepted when they are stored one after the
    /// other.
    pub open spec fn batch_accepts(self, vs: Seq<VectorView>) -> bool
        decreases vs.len(), 0nat,
    {
        vs.len() == 0 || (self.batch_accepts(vs.drop_last()) && self.batch_inserted(
            vs.drop_last(),
        ).accepts(vs.last()))
    }

    /// The collection after storing `vs` one after the other, up to the
    /// first that is rejected: what was stored before it stays.
    pub open spec fn batch_inserted(self, vs: Seq<VectorView>) -> CollectionView
        decreases vs.len(), 1nat,
    {
        if vs.len() == 0 {
            self
        } else if self.batch_accepts(vs) {
            self.batch_inserted(vs.drop_last()).inserted(vs.last())
        } else {
            self.batch_inserted(vs.drop_last())
        }
    }

    /// Whether storing `vs` one after the other ends at `vs[at]`, the first
    /// to be rejected, with the error `e`.
    pub open spec fn batch_rejects_at(self, vs: Seq<VectorView>, at: int, e: ZyphyrError) -> bool {
        &&& 0 <= at < vs.len()
        &&& self.batch_accepts(vs.take(at))
        &&& !self.batch_inserted(vs.take(at)).accepts(vs[at])
        &&& self.batch_inserted(vs.take(at)).rejects_with(vs[at], e)
    }

    /// Once one of `vs` has been rejected, nothing behind it is stored.
    pub proof fn lemma_batch_stops(self, vs: Seq<VectorView>, at: int, upto: int)
        requires
            0 <= at < upto <= vs.len(),
            !self.batch_accepts(vs.take(at + 1)),
        ensures
            !self.batch_accepts(vs.take(upto)),
            self.batch_inserted(vs.take(upto)) == self.batch_inserted(vs.take(at)),
        decreases upto - at,
    {
        assert(vs.take(upto).drop_last() =~= vs.take(upto - 1));
        if upto > at + 1 {
            self.lemma_batch_stops(vs, at, upto - 1);
        }
    }
}

/// The views of a run of vectors.
pub open spec fn views_of(vectors: Seq<Vector>) -> Seq<VectorView> {
    vectors.map_values(|v: Vector| v@)
}

/// The value that each slot is ranked by: the metric's value on what was
/// measured between the query and that slot.
pub open spec fn measured_values(metric: DistanceMetric, measured: Seq<Measurements>) -> Seq<u32> {
    Seq::new(measured.len(), |i: int| metric_value(metric, measured[i]))
}

/// Whether `results` are the leading entries of the ranking `order` of
/// `values`, each with the identifier stored in its slot and that slot's
/// value.
pub open spec fn results_follow(
    slots: Seq<VectorView>,
    values: Seq<u32>,
    order: Seq<usize>,
    results: Seq<(String, u32)>,
) -> bool {
    &&& is_ranking(values, order)
    &&& results.len() <= order.len()
    &&& forall|j: int|
        0 <= j < results.len() ==> (#[trigger] results[j]).0@ == slots[order[j] as int].id
            && results[j].1 == values[order[j] as int]
}

/// The number of chunks of at most `size` that `len` items fall into:
/// `len / size`, rounded up.
pub open spec fn chunk_count(len: nat, size: nat) -> nat
    recommends
        size > 0,
{
    ((len + size - 1) / (size as int)) as nat
}

/// Where chunk `i` starts.
pub open spec fn chunk_start(size: nat, i: int) -> int {
    i * size
}

/// Where chunk `i` ends: a full `size` behind its start, or where the
/// items end.
pub open spec fn chunk_end(len: nat, size: nat, i: int) -> int {
    if (i + 1) * size <= len {
        (i + 1) * size
    } else {
        len as int
    }
}

/// The total length of the first `upto` chunks.
pub open spec fn chunk_lengths(len: nat, size: nat, upto: nat) -> int
    decreases upto,
{
    if upto == 0 {
        0
    } else {
        chunk_lengths(len, size, (upto - 1) as nat) + (chunk_end(len, size, upto - 1) - chunk_start(
            size,
            upto - 1,
        ))
    }
}

/// The chunks follow one another without gap: the first `upto` of them end
/// where chunk `upto - 1` ends.
pub proof fn lemma_chunks_adjoin(len: nat, size: nat, upto: nat)
    requires
        size > 0,
        0 < upto <= chunk_count(len, size),
    ensures
        chunk_lengths(len, size, upto) == chunk_end(len, size, upto - 1),
        forall|i: int|
            0 <= i < upto ==> 0 < #[trigger] chunk_end(len, size, i) - chunk_start(size, i)
                <= size,
    decreases upto,
{
    let s = size as int;
    let count = chunk_count(len, size) as int;
    // chunk `upto - 1` starts before the items end
    lemma_fundamental_div_mod(len + size - 1, s);
    lemma_mod_bound(len + size - 1, s);
    lemma_mul_is_commutative(s, count);
    assert(count * s <= len + size - 1);
    lemma_mul_inequality(upto as int, count, s);
    lemma_mul_is_distributive_add_other_way(s, upto - 1, 1);
    assert((upto - 1) * s < len);
    assert(upto * s == (upto - 1) * s + s);
    if upto > 1 {
        lemma_chunks_adjoin(len, size, (upto - 1) as nat);
        lemma_mul_is_distributive_add_other_way(s, upto - 2, 1);
        assert(chunk_end(len, size, upto - 2) == (upto - 1) * s);
    } else {
        assert(chunk_lengths(len, size, 0) == 0);
    }
    assert forall|i: int| 0 <= i < upto implies 0 < #[trigger] chunk_end(len, size, i)
        - chunk_start(size, i) <= size by {
        if i == upto - 1 {
        }
    }
}

/// As long as chunks are left, each one counted adds to the total length.
pub proof fn lemma_chunk_lengths_grow(len: nat, size: nat, fewer: nat, more: nat)
    requires
        size > 0,
        fewer < more <= chunk_count(len, size),
    ensures
        chunk_lengths(len, size, fewer) < chunk_lengths(len, size, more),
    decreases more,
{
    lemma_chunks_adjoin(len, size, more);
    if fewer < more - 1 {
        lemma_chunk_lengths_grow(len, size, fewer, (more - 1) as nat);
    }
}

/// The chunks cover the items: there are `len / size` of them, rounded up,
/// none longer than `size` and none empty, and their lengths add up to
/// `len`.
pub proof fn lemma_chunks_cover(len: nat, size: nat)
    requires
        size > 0,
    ensures
        chunk_lengths(len, size, chunk_count(len, size)) == len,
        forall|i: int|
            0 <= i < chunk_count(len, size) ==> 0 < #[trigger] chunk_end(len, size, i)
                - chunk_start(size, i) <= size,
{
    let s = size as int;
    let count = chunk_count(len, size) as int;
    lemma_fundamental_div_mod(len + size - 1, s);
    lemma_mod_bound(len + size - 1, s);
    lemma_mul_is_commutative(s, count);
    lemma_div_pos_is_pos(len + size - 1, s);
    if count == 0 {
        lemma_mul_basics(s);
        assert(len == 0);
    } else {
        lemma_chunks_adjoin(len, size, count as nat);
        assert(count * s >= len);
    }
}

/// Whether `id_storage` gives, for each slot, a number of bytes that can
/// stand behind its identifier: at least the identifier's length.
pub open spec fn is_id_storage(slots: Seq<VectorView>, id_storage: Seq<usize>) -> bool {
    &&& id_storage.len() == slots.len()
    &&& forall|i: int|
        0 <= i < slots.len() ==> is_storage_for(slots[i].id, #[trigger] id_storage[i])
}

/// The bytes that the stored vectors account for, with `id_storage[i]`
/// bytes behind the identifier in slot `i`.
pub open spec fn vector_footprints(slots: Seq<VectorView>, id_storage: Seq<usize>) -> nat
    recommends
        id_storage.len() == slots.len(),
    decreases slots.len(),
{
    if slots.len() == 0 {
        0
    } else {
        vector_footprints(slots.drop_last(), id_storage.drop_last()) + vector_footprint(
            id_storage.last() as nat,
            slots.last().padded_dim,
        )
    }
}

/// The bytes one index entry accounts for: an identifier and a slot number.
pub open spec fn index_entry_footprint() -> nat {
    size_of::<String>() + size_of::<usize>()
}

/// The bytes a collection accounts for: its vectors, its index entries and
/// its own fixed part.
pub open spec fn collection_footprint(c: CollectionView, id_storage: Seq<usize>) -> nat {
    vector_footprints(c.slots, id_storage) + c.index.len() * index_entry_footprint() + size_of::<
        VectorCollection,
    >()
}

/// Whether `results` are the leading entries of a ranking of `values`.
pub open spec fn is_search_result(
    slots: Seq<VectorView>,
    values: Seq<u32>,
    results: Seq<(String, u32)>,
) -> bool {
    exists|order: Seq<usize>| #[trigger] results_follow(slots, values, order, results)
}

/// Results that follow some ranking are a search result.
pub proof fn lemma_search_result(
    slots: Seq<VectorView>,
    values: Seq<u32>,
    order: Seq<usize>,
    results: Seq<(String, u32)>,
)
    requires
        results_follow(slots, values, order, results),
    ensures
        is_search_result(slots, values, results),
{
}

/// Whether `results` hold the identifier `id` with the value `value`.
pub open spec fn holds(results: Seq<(String, u32)>, id: Seq<char>, value: u32) -> bool {
    exists|j: int| 0 <= j < results.len() && (#[trigger] results[j]).0@ == id && results[j].1 == value
}

/// A search result as long as the collection covers it: every stored
/// identifier is among the results, with the value of its slot.
pub proof fn lemma_full_search_covers(
    slots: Seq<VectorView>,
    values: Seq<u32>,
    results: Seq<(String, u32)>,
    slot: usize,
)
    requires
        is_search_result(slots, values, results),
        values.len() == slots.len() == results.len(),
        slot < slots.len(),
    ensures
        holds(results, slots[slot as int].id, values[slot as int]),
{
    let order = choose|order: Seq<usize>| #[trigger]
        results_follow(slots, values, order, results);
    assert(order.contains(slot));
    let j = choose|j: int| 0 <= j < order.len() && order[j] == slot;
    assert(results[j].0@ == slots[slot as int].id);
}

/// In a search result no identifier occurs twice.
pub proof fn lemma_search_results_distinct(
    c: CollectionView,
    values: Seq<u32>,
    results: Seq<(String, u32)>,
    i: int,
    j: int,
)
    requires
        c.wf(),
        is_search_result(c.slots, values, results),
        values.len() == c.slots.len(),
        0 <= i < j < results.len(),
    ensures
        results[i].0@ != results[j].0@,
{
    let order = choose|order: Seq<usize>| #[trigger]
        results_follow(c.slots, values, order, results);
    assert(order[i] != order[j]);
    assert(results[i].0@ == c.slots[order[i] as int].id);
    assert(results[j].0@ == c.slots[order[j] as int].id);
    assert(c.index[c.slots[order[i] as int].id] == order[i]);
    assert(c.index[c.slots[order[j] as int].id] == order[j]);
}

/// Where every value is a number, a search result ascends throughout: no
/// result is followed, at any distance, by a smaller one.
pub proof fn lemma_search_result_ascends(
    slots: Seq<VectorView>,
    values: Seq<u32>,
    results: Seq<(String, u32)>,
    i: int,
    j: int,
)
    requires
        is_search_result(slots, values, results),
        all_numbers(values),
        0 <= i <= j < results.len(),
    ensures
        order_key(results[i].1) <= order_key(results[j].1),
        !less_than(results[j].1, results[i].1),
{
    let order = choose|order: Seq<usize>| #[trigger]
        results_follow(slots, values, order, results);
    lemma_ranking_ascends(values, order, i, j);
    assert(results[i].1 == values[order[i] as int]);
    assert(results[j].1 == values[order[j] as int]);
}

/// Where every value is a number, a search result is ascending throughout
/// and ties come in slot order, so that there is only one: two results of
/// the same length agree entry by entry.
pub proof fn lemma_search_result_unique(
    slots: Seq<VectorView>,
    values: Seq<u32>,
    first: Seq<(String, u32)>,
    second: Seq<(String, u32)>,
    j: int,
)
    requires
        is_search_result(slots, values, first),
        is_search_result(slots, values, second),
        all_numbers(values),
        first.len() == second.len(),
        0 <= j < first.len(),
    ensures
        first[j].0@ == second[j].0@,
        first[j].1 == second[j].1,
{
    let a = choose|order: Seq<usize>| #[trigger] results_follow(slots, values, order, first);
    let b = choose|order: Seq<usize>| #[trigger] results_follow(slots, values, order, second);
    lemma_ranking_unique(values, a, b);
}

/// Results that follow a ranking ascend: none is followed directly by a
/// smaller one.
pub proof fn lemma_results_ascend(
    slots: Seq<VectorView>,
    values: Seq<u32>,
    order: Seq<usize>,
    results: Seq<(String, u32)>,
)
    requires
        results_follow(slots, values, order, results),
    ensures
        forall|j: int|
            0 <= j && j + 1 < results.len() ==> !less_than(
                results[j + 1].1,
                (#[trigger] results[j]).1,
            ),
{
    assert forall|j: int| 0 <= j && j + 1 < results.len() implies !less_than(
        results[j + 1].1,
        (#[trigger] results[j]).1,
    ) by {
        assert(results[j + 1].1 == values[order[j + 1] as int]);
        assert(!less_than(values[order[j + 1] as int], values[order[j] as int]));
    }
}

/// Vectors of one dimension under unique identifiers.
pub struct VectorCollection {
    vectors: Vec<Vector>,
    id_to_index: StringHashMap<usize>,
    dimensions: Option<usize>,
}

impl View for VectorCollection {
    type V = CollectionView;

    closed spec fn view(&self) -> CollectionView {
        CollectionView {
            slots: views_of(self.vectors@),
            index: self.id_to_index@,
            dimension: self.dimensions,
        }
    }
}

impl VectorCollection {
    /// An empty collection with no dimension fixed.
    pub fn new() -> (collection: VectorCollection)
        ensures
            collection@.wf(),
            collection@.slots.len() == 0,
            collection@.index == Map::<Seq<char>, usize>::empty(),
            collection@.dimension is None,
    {
        VectorCollection {
            vectors: Vec::new(),
            id_to_index: StringHashMap::new(),
            dimensions: None,
        }
    }

    /// An empty collection with room for `capacity` vectors.
    pub fn with_capacity(capacity: usize) -> (collection: VectorCollection)
        ensures
            collection@.wf(),
            collection@.slots.len() == 0,
            collection@.index == Map::<Seq<char>, usize>::empty(),
            collection@.dimension is None,
    {
        VectorCollection {
            vectors: Vec::with_capacity(capacity),
            id_to_index: StringHashMap::with_capacity(capacity),
            dimensions: None,
        }
    }

    /// Stores a vector in a new last slot, unless its dimension is not the
    /// fixed one or its identifier is in use; then nothing changes.
    pub fn insert(&mut self, vector: Vector) -> (result: Result<(), ZyphyrError>)
        requires
            old(self)@.wf(),
        ensures
            final(self)@.wf(),
            match result {
                Ok(()) => old(self)@.accepts(vector@) && final(self)@ == old(self)@.inserted(
                    vector@,
                ),
                Err(e) => !old(self)@.accepts(vector@) && final(self)@ == old(self)@
                    && old(self)@.rejects_with(vector@, e),
            },
    {
        // Check for consistent dimensions
        if let Some(dims) = self.dimensions {
            if vector.dim() != dims {
                return Err(ZyphyrError::InvalidDimension { expected: dims, got: vector.dim() });
            }
        }
        if self.id_to_index.contains_key(vector.id()) {
            return Err(ZyphyrError::Other(String::from_str("Duplicate ID: ").concat(vector.id())));
        }
        self.dimensions = Some(vector.dim());
        let index = self.vectors.len();
        self.id_to_index.insert(vector.id().to_owned(), index);
        self.vectors.push(vector);
        proof {
            assert(final(self)@.slots =~= old(self)@.slots.push(vector@));
        }
        Ok(())
    }

    /// The number of stored vectors.
    pub fn len(&self) -> (len: usize)
        ensures
            len == self@.slots.len(),
    {
        self.vectors.len()
    }

    /// Whether nothing is stored.
    pub fn is_empty(&self) -> (empty: bool)
        ensures
            empty == (self@.slots.len() == 0),
    {
        self.vectors.is_empty()
    }

    /// Whether a vector is stored under `id`.
    pub fn contains(&self, id: &str) -> (found: bool)
        ensures
            found == self@.index.contains_key(id@),
    {
        self.id_to_index.contains_key(id)
    }

    /// The vector stored under `id`, if there is one.
    pub fn get(&self, id: &str) -> (found: Option<&Vector>)
        requires
            self@.wf(),
        ensures
            match found {
                Some(v) => self@.index.contains_key(id@) && v@ == self@.slots[self@.index[id@] as int],
                None => !self@.index.contains_key(id@),
            },
    {
        match self.id_to_index.get(id) {
            Some(index) => {
                assert(self@.index.contains_key(id@));
                assert(self@.slots.len() == self.vectors@.len());
                Some(&self.vectors[*index])
            },
            None => None,
        }
    }

    /// The vector stored under `id`, if there is one, for changing in place.
    /// What the caller leaves there is what the slot then holds; the
    /// collection stays well-formed as long as the identifier and the
    /// dimension are left as they were.
    pub fn get_mut(&mut self, id: &str) -> (found: Option<&mut Vector>)
        requires
            old(self)@.wf(),
        ensures
            match found {
                Some(v) => {
                    &&& old(self)@.index.contains_key(id@)
                    &&& v@ == old(self)@.slots[old(self)@.index[id@] as int]
                    &&& final(self)@.slots =~= old(self)@.slots.update(
                        old(self)@.index[id@] as int,
                        final(v)@,
                    )
                    &&& final(self)@.index == old(self)@.index
                    &&& final(self)@.dimension == old(self)@.dimension
                },
                None => !old(self)@.index.contains_key(id@) && final(self)@ == old(self)@,
            },
    {
        let index = match self.id_to_index.get(id) {
            Some(index) => *index,
            None => {
                return None;
            },
        };
        assert(self@.index.contains_key(id@));
        assert(self@.slots.len() == self.vectors@.len());
        Some(&mut self.vectors[index])
    }

    /// Takes the vector under `id` out of the collection and returns it.
    /// The last vector moves into its slot, so the order of the slots is not
    /// kept. Nothing changes where no such vector is stored.
    pub fn remove(&mut self, id: &str) -> (removed: Option<Vector>)
        requires
            old(self)@.wf(),
        ensures
            final(self)@.wf(),
            match removed {
                Some(v) => {
                    &&& old(self)@.index.contains_key(id@)
                    &&& v@ == old(self)@.slots[old(self)@.index[id@] as int]
                    &&& final(self)@ == old(self)@.removed(id@)
                    &&& final(self)@.slots.len() == old(self)@.slots.len() - 1
                    &&& !final(self)@.index.contains_key(id@)
                },
                None => !old(self)@.index.contains_key(id@) && final(self)@ == old(self)@,
            },
    {
        let index = match self.id_to_index.get(id) {
            Some(index) => *index,
            None => {
                return None;
            },
        };
        proof {
            assert(self@.index.contains_key(id@));
            assert(self@.slots.len() == self.vectors@.len());
            old(self)@.lemma_removed(id@);
        }
        // Remove from mapping
        self.id_to_index.remove(id);
        // Swap with the last element, then cut the last slot off
        let removed = self.vectors.swap_remove(index);
        if index < self.vectors.len() {
            // Update the mapping for the swapped element
            let swapped_id = self.vectors[index].id().to_owned();
            self.id_to_index.insert(swapped_id, index);
        }
        proof {
            assert(old(self)@.slots.last() == old(self).vectors@.last()@);
            assert(final(self)@.slots =~= old(self)@.removed(id@).slots);
            assert(final(self)@.index =~= old(self)@.removed(id@).index);
        }
        Some(removed)
    }

    /// Stores the vectors in their order. The first that is rejected ends
    /// the run with its error; those before it stay stored, those behind it
    /// are dropped.
    pub fn batch_insert(&mut self, vectors: Vec<Vector>) -> (result: Result<(), ZyphyrError>)
        requires
            old(self)@.wf(),
        ensures
            final(self)@.wf(),
            final(self)@ == old(self)@.batch_inserted(views_of(vectors@)),
            result is Ok <==> old(self)@.batch_accepts(views_of(vectors@)),
            result matches Err(e) ==> exists|at: int| #[trigger]
                old(self)@.batch_rejects_at(views_of(vectors@), at, e),
    {
        let ghost views = views_of(vectors@);
        // Pre-allocate capacity
        self.vectors.reserve(vectors.len());
        self.id_to_index.reserve(vectors.len());
        assert(views.take(0) =~= Seq::<VectorView>::empty());

        for vector in iter: vectors
            invariant
                iter.seq() == vectors@,
                views == views_of(vectors@),
                self@.wf(),
                old(self)@.batch_accepts(views.take(iter.index() as int)),
                self@ == old(self)@.batch_inserted(views.take(iter.index() as int)),
        {
            let ghost at = iter.index() as int;
            proof {
                assert(views.take(at + 1).drop_last() =~= views.take(at));
                assert(views.take(at + 1).last() == vector@);
            }
            let ghost stored = self@;
            match self.insert(vector) {
                Ok(()) => {
                    assert(old(self)@.batch_accepts(views.take(at + 1)));
                    assert(old(self)@.batch_inserted(views.take(at + 1)) == stored.inserted(
                        vector@,
                    ));
                },
                Err(e) => {
                    proof {
                        assert(!old(self)@.batch_accepts(views.take(at + 1)));
                        old(self)@.lemma_batch_stops(views, at, views.len() as int);
                        assert(views.take(views.len() as int) =~= views);
                        assert(old(self)@.batch_rejects_at(views, at, e));
                    }
                    return Err(e);
                },
            }
        }
        assert(views.take(views.len() as int) =~= views);
        Ok(())
    }

    /// The stored vectors, by slot: the order in which a search expects
    /// its measurements.
    pub fn as_slice(&self) -> (vectors: &[Vector])
        ensures
            views_of(vectors@) == self@.slots,
    {
        self.vectors.as_slice()
    }

    /// Finds the `k` stored vectors nearest to `query`, nearest first, as
    /// pairs of identifier and value. `measured[i]` is what was measured
    /// between the query and slot `i`. Values are ranked ascending, ties in
    /// slot order; a value that is not a number ties with everything. All
    /// vectors come back where `k` is at least their number. A query of
    /// another dimension than the stored vectors is an error.
    pub fn search(
        &self,
        query: &Vector,
        k: usize,
        metric: DistanceMetric,
        measured: &[Measurements],
    ) -> (result: Result<Vec<(String, u32)>, ZyphyrError>)
        requires
            self@.wf(),
            measured@.len() == self@.slots.len(),
        ensures
            result is Err <==> self@.slots.len() > 0 && self@.slots[0].words.len()
                != query@.words.len(),
            result matches Err(e) ==> e == (ZyphyrError::InvalidDimension {
                expected: query@.words.len() as usize,
                got: self@.slots[0].words.len() as usize,
            }),
            result matches Ok(results) ==> results@.len() == if k <= self@.slots.len() {
                k as nat
            } else {
                self@.slots.len()
            },
            result matches Ok(results) ==> is_search_result(
                self@.slots,
                measured_values(metric, measured@),
                results@,
            ),
            result matches Ok(results) ==> forall|j: int|
                0 <= j && j + 1 < results@.len() ==> !less_than(
                    results@[j + 1].1,
                    (#[trigger] results@[j]).1,
                ),
            result matches Ok(results) ==> (all_numbers(measured_values(metric, measured@))
                ==> forall|i: int, j: int|
                0 <= i <= j < results@.len() ==> !less_than(
                    (#[trigger] results@[j]).1,
                    (#[trigger] results@[i]).1,
                )),
            result matches Ok(results) ==> forall|i: int, j: int|
                0 <= i < j < results@.len() ==> (#[trigger] results@[i]).0@
                    != (#[trigger] results@[j]).0@,
            result matches Ok(results) ==> (k >= self@.slots.len() ==> forall|slot: int|
                0 <= slot < self@.slots.len() ==> holds(
                    results@,
                    (#[trigger] self@.slots[slot]).id,
                    measured_values(metric, measured@)[slot],
                )),
    {
        let values = match self.measured_distances(query, metric, measured) {
            Ok(values) => values,
            Err(e) => {
                return Err(e);
            },
        };
        let order = rank(values.as_slice());
        let n = self.vectors.len();
        let count = if k <= n {
            k
        } else {
            n
        };
        let results = self.leading_results(&values, &order, count);
        proof {
            lemma_results_ascend(self@.slots, values@, order@, results@);
            lemma_search_result(self@.slots, values@, order@, results@);
            if all_numbers(values@) {
                assert forall|i: int, j: int| 0 <= i <= j < results@.len() implies !less_than(
                    (#[trigger] results@[j]).1,
                    (#[trigger] results@[i]).1,
                ) by {
                    lemma_search_result_ascends(self@.slots, values@, results@, i, j);
                }
            }
            assert forall|i: int, j: int| 0 <= i < j < results@.len() implies (
            #[trigger] results@[i]).0@ != (#[trigger] results@[j]).0@ by {
                lemma_search_results_distinct(self@, values@, results@, i, j);
            }
            if k >= n {
                assert forall|slot: int| 0 <= slot < self@.slots.len() implies holds(
                    results@,
                    (#[trigger] self@.slots[slot]).id,
                    values@[slot],
                ) by {
                    lemma_full_search_covers(self@.slots, values@, results@, slot as usize);
                }
            }
        }
        Ok(results)
    }

    /// The metric's value for each slot, in slot order; or the error of the
    /// first slot whose dimension is not the query's. As all stored vectors
    /// have one dimension, that can only be the first slot.
    fn measured_distances(
        &self,
        query: &Vector,
        metric: DistanceMetric,
        measured: &[Measurements],
    ) -> (result: Result<Vec<u32>, ZyphyrError>)
        requires
            self@.wf(),
            measured@.len() == self@.slots.len(),
        ensures
            match result {
                Ok(values) => {
                    &&& values@ == measured_values(metric, measured@)
                    &&& self@.slots.len() > 0 ==> self@.slots[0].words.len()
                        == query@.words.len()
                },
                Err(e) => {
                    &&& self@.slots.len() > 0
                    &&& self@.slots[0].words.len() != query@.words.len()
                    &&& e == (ZyphyrError::InvalidDimension {
                        expected: query@.words.len() as usize,
                        got: self@.slots[0].words.len() as usize,
                    })
                },
            },
    {
        let n = self.vectors.len();
        let ghost wanted = measured_values(metric, measured@);
        let mut values: Vec<u32> = Vec::with_capacity(n);
        let mut i: usize = 0;
        while i < n
            invariant
                0 <= i <= n,
                n == self.vectors@.len() == self@.slots.len() == measured@.len(),
                self@.wf(),
                wanted == measured_values(metric, measured@),
                values@.len() == i,
                forall|j: int| 0 <= j < i ==> #[trigger] values@[j] == wanted[j],
                forall|j: int|
                    0 <= j < i ==> (#[trigger] self@.slots[j]).words.len() == query@.words.len(),
            decreases n - i,
        {
            assert(self@.slots[i as int] == self.vectors@[i as int]@);
            match metric.compute(query, &self.vectors[i], &measured[i]) {
                Ok(value) => {
                    values.push(value);
                },
                Err(e) => {
                    proof {
                        // the first slot has the dimension of this one
                        assert(self@.slots[0].words.len() == self@.slots[i as int].words.len());
                    }
                    return Err(e);
                },
            }
            i += 1;
        }
        assert(values@ =~= wanted);
        Ok(values)
    }

    /// The first `count` entries of a ranking, each as the identifier in its
    /// slot and that slot's value.
    fn leading_results(&self, values: &Vec<u32>, order: &Vec<usize>, count: usize) -> (results:
        Vec<(String, u32)>)
        requires
            values@.len() == self@.slots.len(),
            is_ranking(values@, order@),
            count <= self@.slots.len(),
        ensures
            results@.len() == count,
            results_follow(self@.slots, values@, order@, results@),
    {
        let mut results: Vec<(String, u32)> = Vec::with_capacity(count);
        let mut j: usize = 0;
        while j < count
            invariant
                0 <= j <= count <= self@.slots.len(),
                self.vectors@.len() == self@.slots.len() == values@.len(),
                is_ranking(values@, order@),
                results@.len() == j,
                forall|t: int|
                    0 <= t < j ==> (#[trigger] results@[t]).0@ == self@.slots[order@[t] as int].id
                        && results@[t].1 == values@[order@[t] as int],
            decreases count - j,
        {
            let slot = order[j];
            assert(self@.slots[slot as int] == self.vectors@[slot as int]@);
            results.push((self.vectors[slot].id().to_owned(), values[slot]));
            j += 1;
        }
        results
    }

    /// Cuts the slots into consecutive chunks of `chunk_size` vectors, the
    /// last one shorter where the slots do not divide evenly. Each chunk can
    /// be handed to a worker of its own.
    pub fn chunks(&self, chunk_size: usize) -> (chunks: Vec<&[Vector]>)
        requires
            chunk_size > 0,
        ensures
            chunks@.len() == chunk_count(self@.slots.len(), chunk_size as nat),
            forall|i: int|
                0 <= i < chunks@.len() ==> views_of((#[trigger] chunks@[i])@)
                    == self@.slots.subrange(
                    chunk_start(chunk_size as nat, i),
                    chunk_end(self@.slots.len(), chunk_size as nat, i),
                ),
    {
        let len = self.vectors.len();
        let mut chunks: Vec<&[Vector]> = Vec::new();
        let mut start: usize = 0;
        proof {
            lemma_chunks_cover(len as nat, chunk_size as nat);
        }
        while start < len
            invariant
                chunk_size > 0,
                len == self.vectors@.len(),
                0 <= start <= len,
                chunks@.len() <= chunk_count(len as nat, chunk_size as nat),
                chunk_lengths(
                    len as nat,
                    chunk_size as nat,
                    chunk_count(len as nat, chunk_size as nat),
                ) == len,
                start == chunk_lengths(len as nat, chunk_size as nat, chunks@.len()),
                chunks@.len() > 0 ==> start == chunk_end(
                    len as nat,
                    chunk_size as nat,
                    chunks@.len() - 1,
                ),
                start < len ==> start == chunk_start(chunk_size as nat, chunks@.len() as int),
                forall|i: int|
                    0 <= i < chunks@.len() ==> views_of((#[trigger] chunks@[i])@)
                        == self@.slots.subrange(
                        chunk_start(chunk_size as nat, i),
                        chunk_end(len as nat, chunk_size as nat, i),
                    ),
            decreases len - start,
        {
            let ghost done = chunks@.len();
            let end = if len - start <= chunk_size {
                len
            } else {
                start + chunk_size
            };
            proof {
                lemma_mul_is_distributive_add_other_way(chunk_size as int, done as int, 1);
                assert((done + 1) * chunk_size == start + chunk_size);
                assert(end == chunk_end(len as nat, chunk_size as nat, done as int));
                // chunks are left as long as items are
                assert(done < chunk_count(len as nat, chunk_size as nat));
            }
            let chunk = slice_subrange(self.vectors.as_slice(), start, end);
            assert(views_of(chunk@) =~= self@.slots.subrange(start as int, end as int));
            chunks.push(chunk);
            start = end;
            proof {
                if start < len {
                    assert(start == chunk_start(chunk_size as nat, done as int + 1));
                }
            }
        }
        proof {
            if chunks@.len() < chunk_count(len as nat, chunk_size as nat) {
                lemma_chunk_lengths_grow(
                    len as nat,
                    chunk_size as nat,
                    chunks@.len(),
                    chunk_count(len as nat, chunk_size as nat),
                );
            }
        }
        chunks
    }

    /// The bytes the collection accounts for when `id_storage[i]` bytes
    /// stand behind the identifier in slot `i`: every vector's footprint,
    /// the index entries, and the collection's fixed part; held at
    /// `usize::MAX` where the sum would not fit.
    pub fn memory_footprint(&self, id_storage: &[usize]) -> (bytes: usize)
        requires
            id_storage@.len() == self@.slots.len(),
        ensures
            bytes == saturated(collection_footprint(self@, id_storage@)),
    {
        let n = self.vectors.len();
        let mut vectors_memory: usize = 0;
        let mut i: usize = 0;
        assert(self@.slots.take(0) =~= Seq::<VectorView>::empty());
        while i < n
            invariant
                0 <= i <= n,
                n == self.vectors@.len() == self@.slots.len() == id_storage@.len(),
                vectors_memory == saturated(
                    vector_footprints(self@.slots.take(i as int), id_storage@.take(i as int)),
                ),
            decreases n - i,
        {
            let vector_memory = self.vectors[i].memory_footprint(id_storage[i]);
            proof {
                assert(self@.slots[i as int] == self.vectors@[i as int]@);
                assert(self@.slots.take(i + 1).drop_last() =~= self@.slots.take(i as int));
                assert(id_storage@.take(i + 1).drop_last() =~= id_storage@.take(i as int));
            }
            vectors_memory = vectors_memory.saturating_add(vector_memory);
            i += 1;
        }
        assert(self@.slots.take(n as int) =~= self@.slots);
        assert(id_storage@.take(n as int) =~= id_storage@);
        let entry_memory = core::mem::size_of::<String>().saturating_add(
            core::mem::size_of::<usize>(),
        );
        let hashmap_memory = match self.id_to_index.len().checked_mul(entry_memory) {
            Some(bytes) => bytes,
            None => usize::MAX,
        };
        proof {
            let entries = self@.index.len() as int;
            let entry = index_entry_footprint() as int;
            if entry_memory < entry {
                // one entry alone is past the limit, and so is any number of them
                assert(entries >= 1 ==> entries * entry >= entry) by (nonlinear_arith)
                    requires
                        entry >= 0,
                ;
                assert(entries >= 2 ==> entries * (entry_memory as int) > usize::MAX)
                    by (nonlinear_arith)
                    requires
                        entry_memory == usize::MAX,
                        usize::MAX > 0,
                ;
            }
            assert(entries == 0 ==> entries * entry == 0 && entries * (entry_memory as int) == 0)
                by (nonlinear_arith);
            assert(entries == 1 ==> entries * entry == entry && entries * (entry_memory as int)
                == entry_memory) by (nonlinear_arith);
            assert(hashmap_memory == saturated((entries * entry) as nat));
        }
        vectors_memory.saturating_add(hashmap_memory).saturating_add(
            core::mem::size_of::<VectorCollection>(),
        )
    }

    /// An estimate of the bytes the collection occupies: its footprint with
    /// the storage that is reserved for each identifier.
    pub fn memory_usage(&self) -> (bytes: usize)
        ensures
            exists|id_storage: Seq<usize>|
                is_id_storage(self@.slots, id_storage) && bytes == saturated(
                    #[trigger] collection_footprint(self@, id_storage),
                ),
    {
        let n = self.vectors.len();
        let mut id_storage: Vec<usize> = Vec::with_capacity(n);
        let mut i: usize = 0;
        while i < n
            invariant
                0 <= i <= n,
                n == self.vectors@.len() == self@.slots.len(),
                id_storage@.len() == i,
                forall|j: int|
                    0 <= j < i ==> is_storage_for(self@.slots[j].id, #[trigger] id_storage@[j]),
            decreases n - i,
        {
            assert(self@.slots[i as int] == self.vectors@[i as int]@);
            id_storage.push(self.vectors[i].id_storage());
            i += 1;
        }
        let bytes = self.memory_footprint(id_storage.as_slice());
        proof {
            assert(is_id_storage(self@.slots, id_storage@));
        }
        bytes
    }
}

} // verus!
