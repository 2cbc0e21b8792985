//! An array that only grows: elements are appended and read, never moved,
//! changed or removed. It is kept in chunks of a fixed size, so that growing
//! never copies what is there.
use vstd::prelude::*;
use vstd::arithmetic::div_mod::lemma_fundamental_div_mod_converse;

verus! {

/// An append-only array in chunks of `CHSize` elements.
pub struct ArrayOnlyReadGrow<DType, const CHSize: usize> {
    /// How many elements the last chunk holds.
    arr_i: usize,
    /// The index of the last chunk.
    chunk_i: usize,
    /// The chunks.
    arr: Vec<Vec<DType>>,
}

impl<DType, const CHSize: usize> ArrayOnlyReadGrow<DType, CHSize> {
    /// Every chunk but the last is full, and the last holds `arr_i`
    /// elements.
    pub closed spec fn wf(&self) -> bool {
        &&& CHSize > 0
        &&& self.arr.len() == self.chunk_i + 1
        &&& self.arr_i <= CHSize
        &&& self.chunk_i * CHSize + self.arr_i <= usize::MAX
        &&& forall|k: int| 0 <= k < self.chunk_i ==> (#[trigger] self.arr@[k]).len() == CHSize
        &&& self.arr@[self.chunk_i as int].len() == self.arr_i
    }

    /// How many elements the array holds.
    pub closed spec fn count(&self) -> nat {
        (self.chunk_i * CHSize + self.arr_i) as nat
    }

    /// The element at `i`.
    pub closed spec fn at(&self, i: int) -> DType {
        self.arr@[i / (CHSize as int)]@[i % (CHSize as int)]
    }

    /// The elements in the order in which they were added.
    pub open spec fn elements(&self) -> Seq<DType> {
        Seq::new(self.count(), |i: int| self.at(i))
    }

    /// An empty array.
    pub fn new() -> (a: Self)
        requires
            CHSize > 0,
        ensures
            a.wf(),
            a.elements() == Seq::<DType>::empty(),
    {
        let mut arr: Vec<Vec<DType>> = Vec::new();
        arr.push(Vec::new());
        let a = ArrayOnlyReadGrow { arr_i: 0, chunk_i: 0, arr };
        assert(a.chunk_i * CHSize == 0) by (nonlinear_arith)
            requires
                a.chunk_i == 0,
        ;
        assert(a.elements() =~= Seq::<DType>::empty());
        a
    }

    /// The number of elements.
    pub fn len(&self) -> (n: usize)
        requires
            self.wf(),
        ensures
            n == self.elements().len(),
    {
        self.chunk_i * CHSize + self.arr_i
    }

    /// Appends `val`.
    pub fn add(&mut self, val: DType)
        requires
            old(self).wf(),
            old(self).elements().len() < usize::MAX - CHSize,
        ensures
            final(self).wf(),
            final(self).elements() == old(self).elements().push(val),
    {
        let ghost before = *self;
        let ghost n = self.count() as int;
        if self.arr_i == CHSize {
            self.arr.push(Vec::new());
            self.chunk_i += 1;
            self.arr_i = 0;
            assert(self.chunk_i * CHSize == (self.chunk_i - 1) * CHSize + CHSize)
                by (nonlinear_arith);
        }
        assert(self.count() == n);
        let ghost mid = *self;
        assert(forall|i: int| 0 <= i < n ==> #[trigger] mid.at(i) == before.at(i)) by {
            assert forall|i: int| 0 <= i < n implies #[trigger] mid.at(i) == before.at(i) by {
                Self::lemma_chunk_of(i, before.chunk_i as int, before.arr_i as int);
            }
        }
        let mut last = match self.arr.pop() {
            Some(chunk) => chunk,
            None => Vec::new(),
        };
        last.push(val);
        self.arr.push(last);
        self.arr_i += 1;
        proof {
            let c = self.chunk_i as int;
            let j = (self.arr_i - 1) as int;
            lemma_fundamental_div_mod_converse(n, CHSize as int, c, j);
            assert(c * CHSize == CHSize * c) by (nonlinear_arith);
            assert forall|i: int| 0 <= i < n implies #[trigger] self.at(i) == mid.at(i) by {
                Self::lemma_chunk_of(i, mid.chunk_i as int, mid.arr_i as int);
                let k = i / (CHSize as int);
                if k == c {
                    assert(i % (CHSize as int) < j);
                }
            }
            assert(self.at(n) == val);
            assert(self.elements() =~= old(self).elements().push(val));
        }
    }

    /// The element at `index`.
    pub fn index(&self, index: usize) -> (r: &DType)
        requires
            self.wf(),
            index < self.elements().len(),
        ensures
            *r == self.elements()[index as int],
    {
        proof {
            Self::lemma_chunk_of(index as int, self.chunk_i as int, self.arr_i as int);
        }
        &self.arr[index / CHSize][index % CHSize]
    }

    /// The chunk and the place in it of the element `i` of an array with
    /// `chunks` full chunks and `last` elements in the chunk after them.
    proof fn lemma_chunk_of(i: int, chunks: int, last: int)
        requires
            CHSize > 0,
            0 <= chunks,
            0 <= last <= CHSize,
            0 <= i < chunks * CHSize + last,
        ensures
            0 <= i / (CHSize as int) <= chunks,
            0 <= i % (CHSize as int) < CHSize,
            i / (CHSize as int) == chunks ==> i % (CHSize as int) < last,
            i / (CHSize as int) == chunks ==> last > 0,
    {
        let size = CHSize as int;
        vstd::arithmetic::div_mod::lemma_fundamental_div_mod(i, size);
        vstd::arithmetic::div_mod::lemma_mod_bound(i, size);
        let k = i / size;
        let r = i % size;
        assert(i == size * k + r);
        assert(k >= 0) by (nonlinear_arith)
            requires
                i == size * k + r,
                i >= 0,
                0 <= r < size,
                size > 0,
        ;
        assert(k <= chunks) by (nonlinear_arith)
            requires
                i == size * k + r,
                i < chunks * size + last,
                last <= size,
                0 <= r,
                size > 0,
        ;
        if k == chunks {
            assert(r < last) by (nonlinear_arith)
                requires
                    i == size * k + r,
                    i < chunks * size + last,
                    k == chunks,
            ;
        }
    }
}

} // verus!
