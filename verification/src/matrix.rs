use vstd::prelude::*;

verus! {

/// Square matrix of non-negative fixed-point values, stored row major.
///
/// One type serves both roles the solver needs: the immutable distance
/// matrix and the mutable pheromone field.
pub struct Matrix {
    n: usize,
    data: Vec<u64>,
}

impl Matrix {
    /// Number of rows (equal to the number of columns).
    pub closed spec fn dim(self) -> nat {
        self.n as nat
    }

    /// The stored cells, row major.
    pub closed spec fn cells(self) -> Seq<u64> {
        self.data@
    }

    pub open spec fn wf(self) -> bool {
        self.cells().len() == self.dim() * self.dim()
    }

    pub open spec fn in_range(self, i: int, j: int) -> bool {
        0 <= i < self.dim() && 0 <= j < self.dim()
    }

    /// Value at row `i`, column `j`.
    pub open spec fn at(self, i: int, j: int) -> u64 {
        self.cells()[i * self.dim() + j]
    }

    /// Out-of-range cells read as zero.
    pub open spec fn at_or_zero(self, i: int, j: int) -> u64 {
        if self.in_range(i, j) {
            self.at(i, j)
        } else {
            0
        }
    }

    pub open spec fn is_symmetric(self) -> bool {
        forall|i: int, j: int|
            self.in_range(i, j) ==> self.at(i, j) == self.at(j, i)
    }

    /// A flat cell index decomposes into the row and column it addresses.
    pub proof fn lemma_flat_decompose(self, idx: int)
        requires
            self.wf(),
            0 <= idx < self.cells().len(),
        ensures
            self.in_range(idx / self.dim() as int, idx % self.dim() as int),
            self.at(idx / self.dim() as int, idx % self.dim() as int) == self.cells()[idx],
    {
        let n = self.dim() as int;
        assert(n > 0) by (nonlinear_arith)
            requires 0 <= idx < n * n && n >= 0,
        ;
        assert(0 <= idx / n < n && 0 <= idx % n < n && (idx / n) * n + idx % n == idx)
            by (nonlinear_arith)
            requires 0 <= idx < n * n && n > 0,
        ;
    }

    pub proof fn lemma_index_bound(self, i: int, j: int)
        requires
            self.wf(),
            self.in_range(i, j),
        ensures
            0 <= i * self.dim() + j < self.cells().len(),
            i * self.dim() + j < usize::MAX + 1,
    {
        let n = self.dim() as int;
        assert(i * n + j < n * n && 0 <= i * n + j) by (nonlinear_arith)
            requires 0 <= i < n && 0 <= j < n,
        ;
        vstd::std_specs::vec::axiom_spec_len(&self.data);
    }

    /// Distinct in-range positions map to distinct flat indices.
    proof fn lemma_index_injective(self, i1: int, j1: int, i2: int, j2: int)
        requires
            self.wf(),
            self.in_range(i1, j1),
            self.in_range(i2, j2),
            !(i1 == i2 && j1 == j2),
        ensures
            i1 * self.dim() + j1 != i2 * self.dim() + j2,
    {
        let n = self.dim() as int;
        assert(i1 * n + j1 != i2 * n + j2) by (nonlinear_arith)
            requires
                0 <= i1 < n && 0 <= j1 < n,
                0 <= i2 < n && 0 <= j2 < n,
                !(i1 == i2 && j1 == j2),
        ;
    }

    /// A well-formed matrix's cell count fits the address space.
    pub proof fn lemma_square_fits(self)
        requires
            self.wf(),
        ensures
            self.dim() * self.dim() <= usize::MAX,
    {
        vstd::std_specs::vec::axiom_spec_len(&self.data);
    }

    pub fn size(&self) -> (r: usize)
        ensures
            r == self.dim(),
    {
        self.n
    }

    /// Read one cell by its flat row-major index.
    pub fn cell(&self, idx: usize) -> (r: u64)
        requires
            idx < self.cells().len(),
        ensures
            r == self.cells()[idx as int],
    {
        self.data[idx]
    }

    pub fn get(&self, i: usize, j: usize) -> (r: u64)
        requires
            self.wf(),
            self.in_range(i as int, j as int),
        ensures
            r == self.at(i as int, j as int),
    {
        proof {
            self.lemma_index_bound(i as int, j as int);
        }
        self.data[i * self.n + j]
    }

    /// Defensive read: a missing (out-of-range) cell contributes zero.
    pub fn get_or_zero(&self, i: usize, j: usize) -> (r: u64)
        requires
            self.wf(),
        ensures
            r == self.at_or_zero(i as int, j as int),
    {
        if i < self.n && j < self.n {
            self.get(i, j)
        } else {
            0
        }
    }

    /// Write `v` into both `[i][j]` and `[j][i]`, keeping the matrix symmetric.
    pub fn set_sym(&mut self, i: usize, j: usize, v: u64)
        requires
            old(self).wf(),
            old(self).in_range(i as int, j as int),
        ensures
            final(self).wf(),
            final(self).dim() == old(self).dim(),
            final(self).at(i as int, j as int) == v,
            final(self).at(j as int, i as int) == v,
            forall|a: int, b: int|
                old(self).in_range(a, b) && !(a == i && b == j) && !(a == j && b == i)
                    ==> final(self).at(a, b) == old(self).at(a, b),
    {
        proof {
            self.lemma_index_bound(i as int, j as int);
            self.lemma_index_bound(j as int, i as int);
        }
        self.data[i * self.n + j] = v;
        self.data[j * self.n + i] = v;
        proof {
            assert forall|a: int, b: int|
                old(self).in_range(a, b) && !(a == i && b == j) && !(a == j && b == i)
                    implies self.at(a, b) == old(self).at(a, b) by {
                old(self).lemma_index_injective(a, b, i as int, j as int);
                old(self).lemma_index_injective(a, b, j as int, i as int);
                old(self).lemma_index_bound(a, b);
            }
        }
    }

    /// The all-zero `n` by `n` matrix, the initial pheromone field.
    pub fn zeros(n: usize) -> (r: Matrix)
        requires
            n * n <= usize::MAX,
        ensures
            r.wf(),
            r.dim() == n,
            forall|i: int, j: int| r.in_range(i, j) ==> r.at(i, j) == 0,
            r.is_symmetric(),
    {
        let mut data: Vec<u64> = Vec::new();
        let total: usize = n * n;
        let mut k: usize = 0;
        while k < total
            invariant
                k <= total,
                data@.len() == k,
                forall|t: int| 0 <= t < k ==> data@[t] == 0,
            decreases total - k,
        {
            data.push(0);
            k = k + 1;
        }
        let r = Matrix { n, data };
        proof {
            assert forall|i: int, j: int| r.in_range(i, j) implies r.at(i, j) == 0 by {
                r.lemma_index_bound(i, j);
            }
        }
        r
    }

    /// Wrap `n * n` row-major cells, whose count is already known to fit.
    pub fn from_square(n: usize, data: Vec<u64>) -> (r: Matrix)
        requires
            data@.len() == n * n,
        ensures
            r.wf(),
            r.dim() == n,
            r.cells() == data@,
    {
        Matrix { n, data }
    }

    /// Build an `n` by `n` matrix from `n * n` row-major cells.
    ///
    /// Fails exactly when the element count is not `n * n`.
    pub fn from_cells(n: usize, data: Vec<u64>) -> (r: Result<Matrix, crate::errors::AcoError>)
        ensures
            match r {
                Ok(m) => {
                    &&& m.wf()
                    &&& m.dim() == n
                    &&& m.cells() == data@
                    &&& data@.len() == n * n
                },
                Err(e) => {
                    &&& e == crate::errors::AcoError::InvalidMatrixShape
                    &&& data@.len() != n * n
                },
            },
    {
        let Some(total) = n.checked_mul(n) else {
            proof {
                vstd::std_specs::vec::axiom_spec_len(&data);
            }
            return Err(crate::errors::AcoError::InvalidMatrixShape);
        };
        if data.len() != total {
            return Err(crate::errors::AcoError::InvalidMatrixShape);
        }
        Ok(Matrix { n, data })
    }
}

} // verus!
