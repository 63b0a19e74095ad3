//! Dense multi-dimensional arrays stored flat with manually computed strides.
//!
//! The dispatch tables of a compiled rule table and the visited store of the
//! search are kept in these, so that every lookup is a single indexing step.

use vstd::prelude::*;

verus! {

/// Bounds the linear index of a two-dimensional coordinate.
pub proof fn lemma_index2(i: int, j: int, d0: int, d1: int)
    by (nonlinear_arith)
    requires
        0 <= i < d0,
        0 <= j < d1,
    ensures
        0 <= i * d1 + j < d0 * d1,
{
}

/// Distinct two-dimensional coordinates have distinct linear indices.
pub proof fn lemma_index2_injective(i1: int, j1: int, i2: int, j2: int, d0: int, d1: int)
    by (nonlinear_arith)
    requires
        0 <= i1 < d0,
        0 <= j1 < d1,
        0 <= i2 < d0,
        0 <= j2 < d1,
        i1 * d1 + j1 == i2 * d1 + j2,
    ensures
        i1 == i2 && j1 == j2,
{
}

/// A product with a positive factor is at least the other factor.
pub proof fn lemma_mul_le(a: int, b: int)
    by (nonlinear_arith)
    requires
        0 <= a,
        1 <= b,
    ensures
        a <= a * b,
{
}

#[derive(Debug)]
pub struct Array2D<T> {
    data: Vec<T>,
    dim0: usize,
    dim1: usize,
}

impl<T> Array2D<T> {
    pub closed spec fn wf(&self) -> bool {
        self.data@.len() == self.dim0 * self.dim1
        && self.dim0 * self.dim1 <= usize::MAX
    }

    pub closed spec fn dims(&self) -> (usize, usize) {
        (self.dim0, self.dim1)
    }

    pub closed spec fn entry(&self, i: int, j: int) -> T {
        self.data@[i * self.dim1 + j]
    }

    fn index(&self, i: usize, j: usize) -> (idx: usize)
        requires
            self.wf(),
            i < self.dims().0,
            j < self.dims().1,
        ensures
            idx == i * self.dims().1 + j,
            idx < self.data@.len(),
    {
        proof {
            lemma_index2(i as int, j as int, self.dim0 as int, self.dim1 as int);
        }
        (i * self.dim1) + j
    }

    pub fn get(&self, i: usize, j: usize) -> (r: &T)
        requires
            self.wf(),
            i < self.dims().0,
            j < self.dims().1,
        ensures
            *r == self.entry(i as int, j as int),
    {
        let idx = self.index(i, j);
        &self.data[idx]
    }

    pub fn set_at(&mut self, i: usize, j: usize, value: T)
        requires
            old(self).wf(),
            i < old(self).dims().0,
            j < old(self).dims().1,
        ensures
            final(self).wf(),
            final(self).dims() == old(self).dims(),
            final(self).entry(i as int, j as int) == value,
            forall|i2: int, j2: int|
                0 <= i2 < old(self).dims().0 && 0 <= j2 < old(self).dims().1
                    && !(i2 == i && j2 == j)
                    ==> final(self).entry(i2, j2) == old(self).entry(i2, j2),
    {
        let idx = self.index(i, j);
        self.data.set(idx, value);
        proof {
            assert forall|i2: int, j2: int|
                0 <= i2 < self.dim0 && 0 <= j2 < self.dim1 && !(i2 == i && j2 == j)
                    implies self.entry(i2, j2) == old(self).entry(i2, j2) by {
                lemma_index2(i2, j2, self.dim0 as int, self.dim1 as int);
                if i2 * self.dim1 + j2 == i * self.dim1 + j {
                    lemma_index2_injective(
                        i2, j2, i as int, j as int, self.dim0 as int, self.dim1 as int,
                    );
                }
            }
        }
    }
}

impl<T: Copy> Array2D<T> {
    pub fn new(dim0: usize, dim1: usize, default: T) -> (a: Self)
        requires
            dim0 * dim1 <= usize::MAX,
        ensures
            a.wf(),
            a.dims() == (dim0, dim1),
            forall|i: int, j: int|
                0 <= i < dim0 && 0 <= j < dim1 ==> a.entry(i, j) == default,
    {
        let size = dim0 * dim1;
        let data = filled_vec(size, default);
        let a = Self { data, dim0, dim1 };
        proof {
            assert forall|i: int, j: int|
                0 <= i < dim0 && 0 <= j < dim1 implies a.entry(i, j) == default by {
                lemma_index2(i, j, dim0 as int, dim1 as int);
            }
        }
        a
    }
}

#[derive(Debug)]
pub struct Array3D<T> {
    data: Vec<T>,
    dim0: usize,
    dim1: usize,
    dim2: usize,
}

impl<T> Array3D<T> {
    pub closed spec fn wf(&self) -> bool {
        self.data@.len() == self.dim0 * self.dim1 * self.dim2
        && self.dim0 * self.dim1 <= usize::MAX
        && self.dim0 * self.dim1 * self.dim2 <= usize::MAX
    }

    pub closed spec fn dims(&self) -> (usize, usize, usize) {
        (self.dim0, self.dim1, self.dim2)
    }

    pub closed spec fn entry(&self, i: int, j: int, k: int) -> T {
        self.data@[(i * self.dim1 + j) * self.dim2 + k]
    }

    proof fn lemma_index3(&self, i: int, j: int, k: int)
        requires
            0 <= i < self.dim0,
            0 <= j < self.dim1,
            0 <= k < self.dim2,
        ensures
            0 <= (i * self.dim1 + j) * self.dim2 + k < self.dim0 * self.dim1 * self.dim2,
    {
        lemma_index2(i, j, self.dim0 as int, self.dim1 as int);
        lemma_index2(
            i * self.dim1 + j, k, self.dim0 * self.dim1, self.dim2 as int,
        );
    }

    proof fn lemma_index3_injective(&self, i1: int, j1: int, k1: int, i2: int, j2: int, k2: int)
        requires
            0 <= i1 < self.dim0,
            0 <= j1 < self.dim1,
            0 <= k1 < self.dim2,
            0 <= i2 < self.dim0,
            0 <= j2 < self.dim1,
            0 <= k2 < self.dim2,
            (i1 * self.dim1 + j1) * self.dim2 + k1 == (i2 * self.dim1 + j2) * self.dim2 + k2,
        ensures
            i1 == i2 && j1 == j2 && k1 == k2,
    {
        lemma_index2(i1, j1, self.dim0 as int, self.dim1 as int);
        lemma_index2(i2, j2, self.dim0 as int, self.dim1 as int);
        lemma_index2_injective(
            i1 * self.dim1 + j1, k1, i2 * self.dim1 + j2, k2,
            self.dim0 * self.dim1, self.dim2 as int,
        );
        lemma_index2_injective(i1, j1, i2, j2, self.dim0 as int, self.dim1 as int);
    }

    fn index(&self, i: usize, j: usize, k: usize) -> (idx: usize)
        requires
            self.wf(),
            i < self.dims().0,
            j < self.dims().1,
            k < self.dims().2,
        ensures
            idx == (i * self.dims().1 + j) * self.dims().2 + k,
            idx < self.data@.len(),
    {
        proof {
            lemma_index2(i as int, j as int, self.dim0 as int, self.dim1 as int);
            lemma_mul_le(self.dim0 * self.dim1, self.dim2 as int);
            self.lemma_index3(i as int, j as int, k as int);
        }
        ((i * self.dim1 + j) * self.dim2) + k
    }

    pub fn get(&self, i: usize, j: usize, k: usize) -> (r: &T)
        requires
            self.wf(),
            i < self.dims().0,
            j < self.dims().1,
            k < self.dims().2,
        ensures
            *r == self.entry(i as int, j as int, k as int),
    {
        let idx = self.index(i, j, k);
        &self.data[idx]
    }

    pub fn set_at(&mut self, i: usize, j: usize, k: usize, value: T)
        requires
            old(self).wf(),
            i < old(self).dims().0,
            j < old(self).dims().1,
            k < old(self).dims().2,
        ensures
            final(self).wf(),
            final(self).dims() == old(self).dims(),
            final(self).entry(i as int, j as int, k as int) == value,
            forall|i2: int, j2: int, k2: int|
                0 <= i2 < old(self).dims().0 && 0 <= j2 < old(self).dims().1
                    && 0 <= k2 < old(self).dims().2
                    && !(i2 == i && j2 == j && k2 == k)
                    ==> final(self).entry(i2, j2, k2) == old(self).entry(i2, j2, k2),
    {
        let idx = self.index(i, j, k);
        self.data.set(idx, value);
        proof {
            assert forall|i2: int, j2: int, k2: int|
                0 <= i2 < self.dim0 && 0 <= j2 < self.dim1 && 0 <= k2 < self.dim2
                    && !(i2 == i && j2 == j && k2 == k)
                    implies self.entry(i2, j2, k2) == old(self).entry(i2, j2, k2) by {
                self.lemma_index3(i2, j2, k2);
                if (i2 * self.dim1 + j2) * self.dim2 + k2
                    == (i as int * self.dim1 + j) * self.dim2 + k {
                    self.lemma_index3_injective(i2, j2, k2, i as int, j as int, k as int);
                }
            }
        }
    }
}

impl<T: Copy> Array3D<T> {
    pub fn new(dim0: usize, dim1: usize, dim2: usize, default: T) -> (a: Self)
        requires
            dim0 * dim1 * dim2 <= usize::MAX,
            dim0 * dim1 <= usize::MAX,
        ensures
            a.wf(),
            a.dims() == (dim0, dim1, dim2),
            forall|i: int, j: int, k: int|
                0 <= i < dim0 && 0 <= j < dim1 && 0 <= k < dim2
                    ==> a.entry(i, j, k) == default,
    {
        let size = (dim0 * dim1) * dim2;
        let data = filled_vec(size, default);
        let a = Self { data, dim0, dim1, dim2 };
        proof {
            assert forall|i: int, j: int, k: int|
                0 <= i < dim0 && 0 <= j < dim1 && 0 <= k < dim2
                    implies a.entry(i, j, k) == default by {
                a.lemma_index3(i, j, k);
            }
        }
        a
    }
}

impl Array3D<Vec<usize>> {
    /// A table of empty lists, one per coordinate.
    pub fn new_empty_lists(dim0: usize, dim1: usize, dim2: usize) -> (a: Self)
        requires
            dim0 * dim1 * dim2 <= usize::MAX,
            dim0 * dim1 <= usize::MAX,
        ensures
            a.wf(),
            a.dims() == (dim0, dim1, dim2),
            forall|i: int, j: int, k: int|
                0 <= i < dim0 && 0 <= j < dim1 && 0 <= k < dim2
                    ==> a.entry(i, j, k)@ == Seq::<usize>::empty(),
    {
        let size = (dim0 * dim1) * dim2;
        let mut data: Vec<Vec<usize>> = Vec::new();
        while data.len() < size
            invariant
                data@.len() <= size,
                forall|p: int| 0 <= p < data@.len() ==> data@[p]@ == Seq::<usize>::empty(),
            decreases size - data@.len(),
        {
            data.push(Vec::new());
        }
        let a = Self { data, dim0, dim1, dim2 };
        proof {
            assert forall|i: int, j: int, k: int|
                0 <= i < dim0 && 0 <= j < dim1 && 0 <= k < dim2
                    implies a.entry(i, j, k)@ == Seq::<usize>::empty() by {
                a.lemma_index3(i, j, k);
            }
        }
        a
    }
}

/// The number of `true` entries of a flat boolean store.
pub open spec fn count_trues(s: Seq<bool>) -> int
    decreases s.len(),
{
    if s.len() == 0 {
        0
    } else {
        count_trues(s.drop_last()) + if s.last() { 1int } else { 0int }
    }
}

/// The count of `true` entries never exceeds the length.
pub proof fn lemma_count_trues_bound(s: Seq<bool>)
    ensures
        0 <= count_trues(s) <= s.len(),
    decreases s.len(),
{
    if s.len() > 0 {
        lemma_count_trues_bound(s.drop_last());
    }
}

/// An all-`false` store counts zero.
proof fn lemma_count_trues_zero(s: Seq<bool>)
    requires
        forall|p: int| 0 <= p < s.len() ==> !s[p],
    ensures
        count_trues(s) == 0,
    decreases s.len(),
{
    if s.len() > 0 {
        lemma_count_trues_zero(s.drop_last());
    }
}

/// Setting one entry to `true` raises the count by one when it was `false`
/// and keeps it otherwise.
proof fn lemma_count_trues_update(s: Seq<bool>, idx: int)
    requires
        0 <= idx < s.len(),
    ensures
        count_trues(s.update(idx, true)) == count_trues(s) + if s[idx] { 0int } else { 1int },
    decreases s.len(),
{
    let t = s.update(idx, true);
    if idx == s.len() - 1 {
        assert(t.drop_last() =~= s.drop_last());
    } else {
        assert(t.drop_last() =~= s.drop_last().update(idx, true));
        lemma_count_trues_update(s.drop_last(), idx);
    }
}

impl Array3D<bool> {
    /// The number of `true` entries.
    pub closed spec fn count_true(&self) -> int {
        count_trues(self.data@)
    }

    /// The count of `true` entries lies between zero and the store size.
    pub proof fn lemma_count_bound(&self)
        requires
            self.wf(),
        ensures
            0 <= self.count_true() <= self.dims().0 * self.dims().1 * self.dims().2,
    {
        lemma_count_trues_bound(self.data@);
    }

    /// An all-`false` store of the given dimensions.
    pub fn new_false(dim0: usize, dim1: usize, dim2: usize) -> (a: Self)
        requires
            dim0 * dim1 * dim2 <= usize::MAX,
            dim0 * dim1 <= usize::MAX,
        ensures
            a.wf(),
            a.dims() == (dim0, dim1, dim2),
            forall|i: int, j: int, k: int|
                0 <= i < dim0 && 0 <= j < dim1 && 0 <= k < dim2 ==> !a.entry(i, j, k),
            a.count_true() == 0,
    {
        let size = (dim0 * dim1) * dim2;
        let data = filled_vec(size, false);
        let a = Self { data, dim0, dim1, dim2 };
        proof {
            lemma_count_trues_zero(a.data@);
            assert forall|i: int, j: int, k: int|
                0 <= i < dim0 && 0 <= j < dim1 && 0 <= k < dim2
                    implies !a.entry(i, j, k) by {
                a.lemma_index3(i, j, k);
            }
        }
        a
    }

    /// Marks one entry `true`, reporting through `count_true` whether the
    /// entry was fresh; all other entries stay as they were.
    pub fn mark(&mut self, i: usize, j: usize, k: usize)
        requires
            old(self).wf(),
            i < old(self).dims().0,
            j < old(self).dims().1,
            k < old(self).dims().2,
        ensures
            final(self).wf(),
            final(self).dims() == old(self).dims(),
            final(self).entry(i as int, j as int, k as int),
            forall|i2: int, j2: int, k2: int|
                0 <= i2 < old(self).dims().0 && 0 <= j2 < old(self).dims().1
                    && 0 <= k2 < old(self).dims().2
                    && !(i2 == i && j2 == j && k2 == k)
                    ==> final(self).entry(i2, j2, k2) == old(self).entry(i2, j2, k2),
            final(self).count_true() == old(self).count_true() + if old(self).entry(
                i as int, j as int, k as int,
            ) {
                0int
            } else {
                1int
            },
    {
        let idx = self.index(i, j, k);
        proof {
            lemma_count_trues_update(self.data@, idx as int);
        }
        self.data.set(idx, true);
        proof {
            assert forall|i2: int, j2: int, k2: int|
                0 <= i2 < self.dim0 && 0 <= j2 < self.dim1 && 0 <= k2 < self.dim2
                    && !(i2 == i && j2 == j && k2 == k)
                    implies self.entry(i2, j2, k2) == old(self).entry(i2, j2, k2) by {
                self.lemma_index3(i2, j2, k2);
                if (i2 * self.dim1 + j2) * self.dim2 + k2
                    == (i as int * self.dim1 + j) * self.dim2 + k {
                    self.lemma_index3_injective(i2, j2, k2, i as int, j as int, k as int);
                }
            }
        }
    }
}

#[derive(Debug)]
pub struct Array4D<T> {
    data: Vec<T>,
    dim0: usize,
    dim1: usize,
    dim2: usize,
    dim3: usize,
}

impl<T> Array4D<T> {
    pub closed spec fn wf(&self) -> bool {
        self.data@.len() == self.dim0 * self.dim1 * self.dim2 * self.dim3
        && self.dim0 * self.dim1 <= usize::MAX
        && self.dim0 * self.dim1 * self.dim2 <= usize::MAX
        && self.dim0 * self.dim1 * self.dim2 * self.dim3 <= usize::MAX
    }

    pub closed spec fn dims(&self) -> (usize, usize, usize, usize) {
        (self.dim0, self.dim1, self.dim2, self.dim3)
    }

    pub closed spec fn entry(&self, i: int, j: int, k: int, l: int) -> T {
        self.data@[((i * self.dim1 + j) * self.dim2 + k) * self.dim3 + l]
    }

    proof fn lemma_index4(&self, i: int, j: int, k: int, l: int)
        requires
            0 <= i < self.dim0,
            0 <= j < self.dim1,
            0 <= k < self.dim2,
            0 <= l < self.dim3,
        ensures
            0 <= ((i * self.dim1 + j) * self.dim2 + k) * self.dim3 + l
                < self.dim0 * self.dim1 * self.dim2 * self.dim3,
    {
        lemma_index2(i, j, self.dim0 as int, self.dim1 as int);
        lemma_index2(i * self.dim1 + j, k, self.dim0 * self.dim1, self.dim2 as int);
        lemma_index2(
            (i * self.dim1 + j) * self.dim2 + k, l,
            self.dim0 * self.dim1 * self.dim2, self.dim3 as int,
        );
    }

    proof fn lemma_index4_injective(
        &self,
        i1: int, j1: int, k1: int, l1: int,
        i2: int, j2: int, k2: int, l2: int,
    )
        requires
            0 <= i1 < self.dim0,
            0 <= j1 < self.dim1,
            0 <= k1 < self.dim2,
            0 <= l1 < self.dim3,
            0 <= i2 < self.dim0,
            0 <= j2 < self.dim1,
            0 <= k2 < self.dim2,
            0 <= l2 < self.dim3,
            ((i1 * self.dim1 + j1) * self.dim2 + k1) * self.dim3 + l1
                == ((i2 * self.dim1 + j2) * self.dim2 + k2) * self.dim3 + l2,
        ensures
            i1 == i2 && j1 == j2 && k1 == k2 && l1 == l2,
    {
        lemma_index2(i1, j1, self.dim0 as int, self.dim1 as int);
        lemma_index2(i2, j2, self.dim0 as int, self.dim1 as int);
        lemma_index2(i1 * self.dim1 + j1, k1, self.dim0 * self.dim1, self.dim2 as int);
        lemma_index2(i2 * self.dim1 + j2, k2, self.dim0 * self.dim1, self.dim2 as int);
        lemma_index2_injective(
            (i1 * self.dim1 + j1) * self.dim2 + k1, l1,
            (i2 * self.dim1 + j2) * self.dim2 + k2, l2,
            self.dim0 * self.dim1 * self.dim2, self.dim3 as int,
        );
        lemma_index2_injective(
            i1 * self.dim1 + j1, k1, i2 * self.dim1 + j2, k2,
            self.dim0 * self.dim1, self.dim2 as int,
        );
        lemma_index2_injective(i1, j1, i2, j2, self.dim0 as int, self.dim1 as int);
    }

    fn index(&self, i: usize, j: usize, k: usize, l: usize) -> (idx: usize)
        requires
            self.wf(),
            i < self.dims().0,
            j < self.dims().1,
            k < self.dims().2,
            l < self.dims().3,
        ensures
            idx == ((i * self.dims().1 + j) * self.dims().2 + k) * self.dims().3 + l,
            idx < self.data@.len(),
    {
        proof {
            lemma_index2(i as int, j as int, self.dim0 as int, self.dim1 as int);
            lemma_index2(
                i as int * self.dim1 + j, k as int, self.dim0 * self.dim1, self.dim2 as int,
            );
            lemma_mul_le(self.dim0 * self.dim1, self.dim2 as int);
            lemma_mul_le(self.dim0 * self.dim1 * self.dim2, self.dim3 as int);
            self.lemma_index4(i as int, j as int, k as int, l as int);
        }
        (((i * self.dim1 + j) * self.dim2 + k) * self.dim3) + l
    }

    pub fn get(&self, i: usize, j: usize, k: usize, l: usize) -> (r: &T)
        requires
            self.wf(),
            i < self.dims().0,
            j < self.dims().1,
            k < self.dims().2,
            l < self.dims().3,
        ensures
            *r == self.entry(i as int, j as int, k as int, l as int),
    {
        let idx = self.index(i, j, k, l);
        &self.data[idx]
    }

    pub fn set_at(&mut self, i: usize, j: usize, k: usize, l: usize, value: T)
        requires
            old(self).wf(),
            i < old(self).dims().0,
            j < old(self).dims().1,
            k < old(self).dims().2,
            l < old(self).dims().3,
        ensures
            final(self).wf(),
            final(self).dims() == old(self).dims(),
            final(self).entry(i as int, j as int, k as int, l as int) == value,
            forall|i2: int, j2: int, k2: int, l2: int|
                0 <= i2 < old(self).dims().0 && 0 <= j2 < old(self).dims().1
                    && 0 <= k2 < old(self).dims().2 && 0 <= l2 < old(self).dims().3
                    && !(i2 == i && j2 == j && k2 == k && l2 == l)
                    ==> final(self).entry(i2, j2, k2, l2) == old(self).entry(i2, j2, k2, l2),
    {
        let idx = self.index(i, j, k, l);
        self.data.set(idx, value);
        proof {
            assert forall|i2: int, j2: int, k2: int, l2: int|
                0 <= i2 < self.dim0 && 0 <= j2 < self.dim1 && 0 <= k2 < self.dim2
                    && 0 <= l2 < self.dim3
                    && !(i2 == i && j2 == j && k2 == k && l2 == l)
                    implies self.entry(i2, j2, k2, l2) == old(self).entry(i2, j2, k2, l2) by {
                self.lemma_index4(i2, j2, k2, l2);
                if ((i2 * self.dim1 + j2) * self.dim2 + k2) * self.dim3 + l2
                    == ((i as int * self.dim1 + j) * self.dim2 + k) * self.dim3 + l {
                    self.lemma_index4_injective(
                        i2, j2, k2, l2, i as int, j as int, k as int, l as int,
                    );
                }
            }
        }
    }
}

impl<T: Copy> Array4D<T> {
    pub fn new(dim0: usize, dim1: usize, dim2: usize, dim3: usize, default: T) -> (a: Self)
        requires
            dim0 * dim1 * dim2 * dim3 <= usize::MAX,
            dim0 * dim1 * dim2 <= usize::MAX,
            dim0 * dim1 <= usize::MAX,
        ensures
            a.wf(),
            a.dims() == (dim0, dim1, dim2, dim3),
            forall|i: int, j: int, k: int, l: int|
                0 <= i < dim0 && 0 <= j < dim1 && 0 <= k < dim2 && 0 <= l < dim3
                    ==> a.entry(i, j, k, l) == default,
    {
        let size = ((dim0 * dim1) * dim2) * dim3;
        let data = filled_vec(size, default);
        let a = Self { data, dim0, dim1, dim2, dim3 };
        proof {
            assert forall|i: int, j: int, k: int, l: int|
                0 <= i < dim0 && 0 <= j < dim1 && 0 <= k < dim2 && 0 <= l < dim3
                    implies a.entry(i, j, k, l) == default by {
                a.lemma_index4(i, j, k, l);
            }
        }
        a
    }
}

/// A vector holding `size` copies of a single value.
pub fn filled_vec<T: Copy>(size: usize, default: T) -> (data: Vec<T>)
    ensures
        data@.len() == size,
        forall|p: int| 0 <= p < size ==> data@[p] == default,
{
    let mut data: Vec<T> = Vec::new();
    while data.len() < size
        invariant
            data@.len() <= size,
            forall|p: int| 0 <= p < data@.len() ==> data@[p] == default,
        decreases size - data@.len(),
    {
        data.push(default);
    }
    data
}

} // verus!
