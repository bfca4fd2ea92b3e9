//! Append-only storage in chunks.
//!
//! A chunk is allocated once, at its full size, and never grown: what it holds
//! stays where it is while the storage grows by further chunks. A view borrows
//! its storage, so what it shows cannot change while it is held.

use vstd::prelude::*;
use crate::score::Score;

verus! {

/// Vectors of one dimension, in chunks.
pub struct VectorArena {
    chunks: Vec<Vec<Score>>,
    dim: usize,
    chunk_capacity: usize,
    total: usize,
}

proof fn lemma_slot(idx: int, capacity: int)
    requires
        0 <= idx,
        0 < capacity,
    ensures
        idx == (idx / capacity) * capacity + idx % capacity,
        0 <= idx % capacity < capacity,
        0 <= idx / capacity,
{
    vstd::arithmetic::div_mod::lemma_fundamental_div_mod(idx, capacity);
    vstd::arithmetic::div_mod::lemma_mod_bound(idx, capacity);
    vstd::arithmetic::div_mod::lemma_div_pos_is_pos(idx, capacity);
    assert((idx / capacity) * capacity == capacity * (idx / capacity)) by (nonlinear_arith);
}

/// An index short of a multiple of the capacity lies in an earlier chunk.
proof fn lemma_chunk_below(idx: int, capacity: int, chunks: int)
    requires
        0 <= idx < chunks * capacity,
        0 < capacity,
    ensures
        0 <= idx / capacity < chunks,
{
    lemma_slot(idx, capacity);
    assert(idx / capacity < chunks) by (nonlinear_arith)
        requires
            (idx / capacity) * capacity <= idx,
            idx < chunks * capacity,
            0 < capacity,
    ;
}

/// How many chunks `total` slots take.
spec fn chunks_for(total: int, capacity: int) -> int {
    if total % capacity == 0 {
        total / capacity
    } else {
        total / capacity + 1
    }
}

proof fn lemma_push_slot(total: int, capacity: int)
    requires
        0 <= total,
        0 < capacity,
    ensures
        total % capacity == 0 ==> chunks_for(total + 1, capacity) == chunks_for(total, capacity) + 1,
        total % capacity != 0 ==> chunks_for(total + 1, capacity) == chunks_for(total, capacity),
        total % capacity == 0 ==> total / capacity == chunks_for(total, capacity),
        total % capacity != 0 ==> total / capacity == chunks_for(total, capacity) - 1,
{
    lemma_slot(total, capacity);
    let q = total / capacity;
    let r = total % capacity;
    if r + 1 < capacity {
        vstd::arithmetic::div_mod::lemma_fundamental_div_mod_converse(total + 1, capacity, q, r + 1);
    } else {
        assert((q + 1) * capacity == q * capacity + capacity) by (nonlinear_arith);
        vstd::arithmetic::div_mod::lemma_fundamental_div_mod_converse(total + 1, capacity, q + 1, 0);
    }
}

proof fn lemma_index_in_chunks(idx: int, total: int, capacity: int)
    requires
        0 <= idx < total,
        0 < capacity,
    ensures
        0 <= idx / capacity < chunks_for(total, capacity),
{
    lemma_slot(total, capacity);
    let n = chunks_for(total, capacity);
    assert((total / capacity + 1) * capacity == (total / capacity) * capacity + capacity) by (nonlinear_arith);
    lemma_chunk_below(idx, capacity, n);
}

impl VectorArena {
    /// The dimension of the vectors.
    pub closed spec fn dimension(&self) -> nat {
        self.dim as nat
    }

    /// The vectors, in the order in which they were pushed.
    pub closed spec fn vectors(&self) -> Seq<Seq<Score>> {
        Seq::new(self.total as nat, |i: int| self.slot(i))
    }

    spec fn slot(&self, i: int) -> Seq<Score> {
        let start = (i % self.chunk_capacity as int) * self.dim;
        self.chunks@[i / self.chunk_capacity as int]@.subrange(start, start + self.dim)
    }

    /// Whether the chunks hold as many vectors as were pushed.
    pub closed spec fn wf(&self) -> bool {
        &&& self.dim > 0
        &&& self.chunk_capacity > 0
        &&& self.chunk_capacity * self.dim <= usize::MAX
        &&& self.chunks@.len() == chunks_for(self.total as int, self.chunk_capacity as int)
        &&& forall|c: int|
            0 <= c < self.chunks@.len() ==> (#[trigger] self.chunks@[c])@.len() == self.chunk_capacity * self.dim
    }

    /// Every vector has the dimension of the arena.
    pub proof fn lemma_dimensions(&self)
        requires
            self.wf(),
        ensures
            self.dimension() > 0,
            forall|i: int| 0 <= i < self.vectors().len() ==> (#[trigger] self.vectors()[i]).len() == self.dimension(),
    {
        assert forall|i: int| 0 <= i < self.vectors().len() implies (#[trigger] self.vectors()[i]).len()
            == self.dimension() by {
            self.lemma_slot_bounds(i);
        }
    }

    proof fn lemma_slot_bounds(&self, i: int)
        requires
            self.wf(),
            0 <= i < self.total,
        ensures
            0 <= i / self.chunk_capacity as int,
            (i / self.chunk_capacity as int) < self.chunks@.len(),
            0 <= (i % self.chunk_capacity as int) * self.dim,
            (i % self.chunk_capacity as int) * self.dim + self.dim <= self.chunk_capacity * self.dim,
    {
        let c = self.chunk_capacity as int;
        lemma_index_in_chunks(i, self.total as int, c);
        lemma_slot(i, c);
        let local = i % c;
        let d = self.dim as int;
        assert(0 <= local * d && local * d + d <= c * d) by (nonlinear_arith)
            requires
                0 <= local < c,
                0 < d,
        ;
    }

    /// An arena without vectors.
    pub fn new(dim: usize, chunk_capacity: usize) -> (r: Self)
        requires
            dim > 0,
            chunk_capacity > 0,
            chunk_capacity * dim <= usize::MAX,
        ensures
            r.wf(),
            r.dimension() == dim,
            r.vectors() == Seq::<Seq<Score>>::empty(),
    {
        let r = VectorArena { chunks: Vec::new(), dim, chunk_capacity, total: 0 };
        proof {
            vstd::arithmetic::div_mod::lemma_div_basics(chunk_capacity as int);
            vstd::arithmetic::div_mod::lemma_small_mod(0, chunk_capacity as nat);
            assert(r.vectors() =~= Seq::<Seq<Score>>::empty());
        }
        r
    }

    /// Appends a vector and gives its index.
    pub fn push(&mut self, vec: &[Score]) -> (r: usize)
        requires
            old(self).wf(),
            vec@.len() == old(self).dimension(),
            old(self).vectors().len() < usize::MAX,
        ensures
            final(self).wf(),
            final(self).dimension() == old(self).dimension(),
            r == old(self).vectors().len(),
            final(self).vectors() == old(self).vectors().push(vec@),
    {
        let idx: usize = self.total;
        let at: usize = idx / self.chunk_capacity;
        let local: usize = idx % self.chunk_capacity;
        let ghost cap = self.chunk_capacity as int;
        proof {
            lemma_push_slot(idx as int, cap);
            lemma_slot(idx as int, cap);
        }
        if local == 0 {
            let chunk: Vec<Score> = vec![0; self.chunk_capacity * self.dim];
            self.chunks.push(chunk);
        }
        let dim: usize = self.dim;
        let mut chunk: Vec<Score> = Vec::new();
        std::mem::swap(&mut chunk, &mut self.chunks[at]);
        let ghost before = chunk@;
        let ghost d = dim as int;
        proof {
            assert(0 <= local * d && local * d + d <= cap * d) by (nonlinear_arith)
                requires
                    0 <= local < cap,
                    0 < d,
            ;
        }
        let start: usize = local * dim;
        let mut i: usize = 0;
        while i < dim
            invariant
                i <= dim,
                vec@.len() == dim,
                chunk@.len() == before.len(),
                start + dim <= chunk@.len(),
                chunk@.len() <= usize::MAX,
                forall|k: int| 0 <= k < i ==> #[trigger] chunk@[start + k] == vec@[k],
                forall|k: int| 0 <= k < start || start + i <= k < before.len() ==> chunk@[k] == before[k],
            decreases dim - i,
        {
            chunk.set(start + i, vec[i]);
            i += 1;
        }
        let ghost written = chunk@;
        assert(written.subrange(start as int, start + dim) =~= vec@) by {
            assert forall|k: int| 0 <= k < dim implies written.subrange(start as int, start + dim)[k] == vec@[k] by {
                assert(written[start + k] == vec@[k]);
            }
        }
        std::mem::swap(&mut chunk, &mut self.chunks[at]);
        self.total = self.total + 1;
        proof {
            let new_slot = self.slot(idx as int);
            assert(new_slot == vec@);
            assert forall|k: int| 0 <= k < idx implies #[trigger] self.slot(k) == old(self).slot(k) by {
                old(self).lemma_slot_bounds(k);
                let c = k / cap;
                if c == at {
                    lemma_slot(k, cap);
                    let l = k % cap;
                    assert(l < local);
                    assert(l * d + d <= local * d) by (nonlinear_arith)
                        requires
                            0 <= l < local,
                            0 < d,
                    ;
                    assert(self.slot(k) =~= old(self).slot(k));
                } else {
                    assert(self.chunks@[c] == old(self).chunks@[c]);
                }
            }
            assert(self.vectors() =~= old(self).vectors().push(vec@));
        }
        idx
    }

    /// How many vectors were pushed.
    pub fn len(&self) -> (r: usize)
        ensures
            r == self.vectors().len(),
    {
        self.total
    }

    /// Whether nothing was pushed.
    pub fn is_empty(&self) -> (r: bool)
        ensures
            r == (self.vectors().len() == 0),
    {
        self.total == 0
    }

    /// The vector at an index.
    pub fn get_direct(&self, idx: usize) -> (r: &[Score])
        requires
            self.wf(),
            idx < self.vectors().len(),
        ensures
            r@ == self.vectors()[idx as int],
            r@.len() == self.dimension(),
    {
        proof {
            self.lemma_slot_bounds(idx as int);
        }
        let chunk: &Vec<Score> = &self.chunks[idx / self.chunk_capacity];
        let start: usize = (idx % self.chunk_capacity) * self.dim;
        &chunk.as_slice()[start..start + self.dim]
    }

    /// A view of the vectors pushed so far.
    pub fn view(&self) -> (r: VectorArenaView<'_>)
        ensures
            r.vectors() == self.vectors(),
            r.wf() == self.wf(),
    {
        VectorArenaView { arena: self }
    }
}

/// The vectors of an arena at one point in time.
pub struct VectorArenaView<'a> {
    arena: &'a VectorArena,
}

impl<'a> VectorArenaView<'a> {
    /// The vectors that the view shows.
    pub closed spec fn vectors(&self) -> Seq<Seq<Score>> {
        self.arena.vectors()
    }

    /// Whether the arena that the view shows is well-formed.
    pub closed spec fn wf(&self) -> bool {
        self.arena.wf()
    }

    /// The vector at an index.
    pub fn get(&self, idx: usize) -> (r: &[Score])
        requires
            self.wf(),
            idx < self.vectors().len(),
        ensures
            r@ == self.vectors()[idx as int],
    {
        self.arena.get_direct(idx)
    }
}

/// One chunk of elements.
pub struct ArrayChunk<T> {
    data: Vec<T>,
}

impl<T: Default> ArrayChunk<T> {
    /// What the chunk holds.
    pub closed spec fn elements(&self) -> Seq<T> {
        self.data@
    }

    /// A chunk of default values.
    pub fn new(capacity: usize) -> (r: Self)
        ensures
            r.elements().len() == capacity,
            forall|i: int| 0 <= i < capacity ==> call_ensures(T::default, (), #[trigger] r.elements()[i]),
    {
        let mut data: Vec<T> = Vec::with_capacity(capacity);
        let mut i: usize = 0;
        while i < capacity
            invariant
                i <= capacity,
                data@.len() == i,
                forall|k: int| 0 <= k < i ==> call_ensures(T::default, (), #[trigger] data@[k]),
            decreases capacity - i,
        {
            data.push(T::default());
            i += 1;
        }
        ArrayChunk { data }
    }
}

/// Elements in chunks.
pub struct ChunkedArray<T> {
    chunks: Vec<ArrayChunk<T>>,
    chunk_capacity: usize,
    total: usize,
}

impl<T: Default> ChunkedArray<T> {
    spec fn slot(&self, i: int) -> T {
        self.chunks@[i / self.chunk_capacity as int].data@[i % self.chunk_capacity as int]
    }

    /// The elements, in the order in which their slots were made.
    pub closed spec fn elements(&self) -> Seq<T> {
        Seq::new(self.total as nat, |i: int| self.slot(i))
    }

    /// Whether there are as many chunks as the slots take, the slots not yet made
    /// among them still at their default.
    pub closed spec fn wf(&self) -> bool {
        &&& self.chunk_capacity > 0
        &&& self.chunks@.len() == chunks_for(self.total as int, self.chunk_capacity as int)
        &&& forall|c: int| 0 <= c < self.chunks@.len() ==> (#[trigger] self.chunks@[c]).data@.len() == self.chunk_capacity
        &&& self.total % self.chunk_capacity != 0 ==> forall|l: int|
            self.total % self.chunk_capacity <= l < self.chunk_capacity ==> call_ensures(
                T::default,
                (),
                #[trigger] self.chunks@[self.chunks@.len() - 1].data@[l],
            )
    }

    /// An array without elements.
    pub fn new(chunk_capacity: usize) -> (r: Self)
        requires
            chunk_capacity > 0,
        ensures
            r.wf(),
            r.elements() == Seq::<T>::empty(),
    {
        let r = ChunkedArray { chunks: Vec::new(), chunk_capacity, total: 0 };
        proof {
            vstd::arithmetic::div_mod::lemma_div_basics(chunk_capacity as int);
            vstd::arithmetic::div_mod::lemma_small_mod(0, chunk_capacity as nat);
            assert(r.elements() =~= Seq::<T>::empty());
        }
        r
    }

    /// Makes a slot with the default value and gives its index.
    pub fn push_default(&mut self) -> (r: usize)
        requires
            old(self).wf(),
            old(self).elements().len() < usize::MAX,
        ensures
            final(self).wf(),
            r == old(self).elements().len(),
            final(self).elements().len() == r + 1,
            final(self).elements().drop_last() == old(self).elements(),
            call_ensures(T::default, (), final(self).elements()[r as int]),
    {
        let idx: usize = self.total;
        let ghost cap = self.chunk_capacity as int;
        proof {
            lemma_push_slot(idx as int, cap);
            lemma_slot(idx as int, cap);
            lemma_slot(idx + 1, cap);
        }
        if idx % self.chunk_capacity == 0 {
            self.chunks.push(ArrayChunk::new(self.chunk_capacity));
        }
        self.total = self.total + 1;
        proof {
            assert forall|k: int| 0 <= k < idx implies #[trigger] self.slot(k) == old(self).slot(k) by {
                lemma_index_in_chunks(k, idx as int, cap);
            }
            assert(self.elements().drop_last() =~= old(self).elements());
            let q = idx as int / cap;
            let l = idx as int % cap;
            if l + 1 < cap {
                vstd::arithmetic::div_mod::lemma_fundamental_div_mod_converse(idx + 1, cap, q, l + 1);
            } else {
                assert((q + 1) * cap == q * cap + cap) by (nonlinear_arith);
                vstd::arithmetic::div_mod::lemma_fundamental_div_mod_converse(idx + 1, cap, q + 1, 0);
            }
            assert(self.slot(idx as int) == self.chunks@[self.chunks@.len() - 1].data@[l]);
        }
        idx
    }

    /// Puts a value into a slot.
    pub fn set(&mut self, idx: usize, value: T)
        requires
            old(self).wf(),
            idx < old(self).elements().len(),
        ensures
            final(self).wf(),
            final(self).elements() == old(self).elements().update(idx as int, value),
    {
        let ghost cap = self.chunk_capacity as int;
        proof {
            lemma_index_in_chunks(idx as int, self.total as int, cap);
            lemma_slot(idx as int, cap);
            lemma_slot(self.total as int, cap);
        }
        let at: usize = idx / self.chunk_capacity;
        let local: usize = idx % self.chunk_capacity;
        let mut data: Vec<T> = Vec::new();
        std::mem::swap(&mut data, &mut self.chunks[at].data);
        data.set(local, value);
        std::mem::swap(&mut data, &mut self.chunks[at].data);
        proof {
            assert forall|k: int| 0 <= k < self.total && k != idx implies #[trigger] self.slot(k) == old(self).slot(k) by {
                lemma_index_in_chunks(k, self.total as int, cap);
                lemma_slot(k, cap);
            }
            assert(self.elements() =~= old(self).elements().update(idx as int, value));
        }
    }

    /// A view of the elements.
    pub fn view(&self) -> (r: ChunkedArrayView<'_, T>)
        requires
            self.wf(),
        ensures
            r.wf(),
            r.elements() == self.elements(),
    {
        ChunkedArrayView { array: self, len: self.total }
    }

    /// Hands the element of a slot to a function.
    pub fn with<F: FnOnce(&T) -> R, R>(&self, idx: usize, f: F) -> (r: R)
        requires
            self.wf(),
            idx < self.elements().len(),
            call_requires(f, (&self.elements()[idx as int],)),
        ensures
            call_ensures(f, (&self.elements()[idx as int],), r),
    {
        let view: ChunkedArrayView<'_, T> = self.view();
        f(view.get(idx))
    }

    /// How many slots were made.
    pub fn len(&self) -> (r: usize)
        ensures
            r == self.elements().len(),
    {
        self.total
    }

    /// Whether no slot was made.
    pub fn is_empty(&self) -> (r: bool)
        ensures
            r == (self.elements().len() == 0),
    {
        self.total == 0
    }
}

/// The elements of an array at one point in time.
pub struct ChunkedArrayView<'a, T> {
    array: &'a ChunkedArray<T>,
    len: usize,
}

impl<'a, T: Default> ChunkedArrayView<'a, T> {
    /// The elements that the view shows.
    pub closed spec fn elements(&self) -> Seq<T> {
        self.array.elements()
    }

    /// Whether the array that the view shows is well-formed.
    pub closed spec fn wf(&self) -> bool {
        self.array.wf() && self.len == self.array.total
    }

    /// The element at an index.
    pub fn get(&self, idx: usize) -> (r: &T)
        requires
            self.wf(),
            idx < self.elements().len(),
        ensures
            *r == self.elements()[idx as int],
    {
        proof {
            lemma_index_in_chunks(idx as int, self.array.total as int, self.array.chunk_capacity as int);
            lemma_slot(idx as int, self.array.chunk_capacity as int);
        }
        &self.array.chunks[idx / self.array.chunk_capacity].data[idx % self.array.chunk_capacity]
    }

    /// How many elements the view shows.
    pub fn len(&self) -> (r: usize)
        requires
            self.wf(),
        ensures
            r == self.elements().len(),
    {
        self.len
    }

    /// Whether the view shows nothing.
    pub fn is_empty(&self) -> (r: bool)
        requires
            self.wf(),
        ensures
            r == (self.elements().len() == 0),
    {
        self.len == 0
    }

    /// The element at an index, if there is one.
    pub fn get_opt(&self, idx: usize) -> (r: Option<&T>)
        requires
            self.wf(),
        ensures
            idx < self.elements().len() ==> r is Some && *r->0 == self.elements()[idx as int],
            idx >= self.elements().len() ==> r is None,
    {
        if idx < self.len {
            Some(self.get(idx))
        } else {
            None
        }
    }
}

} // verus!
