//! Multi-dimensional arrays of "is assigned" flags, indexed in row-major order.

use vstd::prelude::*;

verus! {

/// Failures of the signal bookkeeping.
#[derive(Clone, Copy, Debug, PartialEq, Eq, Structural)]
pub enum MemoryError {
    /// An uninitialized component, an unknown signal, an output read before
    /// all inputs are driven, or an access path of the wrong rank or out of range.
    InvalidAccess,
    /// A cell (or a component) that may be set only once was set again.
    AssignmentError,
}

/// Number of cells of an array with the given dimensions.
pub open spec fn dims_product(d: Seq<usize>) -> nat
    decreases d.len(),
{
    if d.len() == 0 {
        1
    } else {
        dims_product(d.drop_last()) * (d.last() as nat)
    }
}

/// An access path names one cell: same rank as the array, each index in range.
pub open spec fn access_in_range(d: Seq<usize>, a: Seq<usize>) -> bool {
    &&& a.len() == d.len()
    &&& forall|i: int| 0 <= i < a.len() ==> #[trigger] a[i] < d[i]
}

/// Row-major flattening of an access path.
pub open spec fn row_major(d: Seq<usize>, a: Seq<usize>) -> int
    decreases a.len(),
{
    if a.len() == 0 || d.len() == 0 {
        0
    } else {
        row_major(d.drop_last(), a.drop_last()) * (d.last() as int) + (a.last() as int)
    }
}

/// An in-range access path names a cell of the array.
pub proof fn lemma_row_major_bound(d: Seq<usize>, a: Seq<usize>)
    requires
        access_in_range(d, a),
    ensures
        0 <= row_major(d, a) < dims_product(d),
    decreases a.len(),
{
    if a.len() > 0 {
        let dp = d.drop_last();
        let ap = a.drop_last();
        assert(access_in_range(dp, ap)) by {
            assert forall|i: int| 0 <= i < ap.len() implies #[trigger] ap[i] < dp[i] by {
                assert(a[i] < d[i]);
            }
        }
        lemma_row_major_bound(dp, ap);
        let h = row_major(dp, ap);
        let p = dims_product(dp) as int;
        let x = d.last() as int;
        let y = a.last() as int;
        assert(y < x) by {
            assert(a[a.len() - 1] < d[d.len() - 1]);
        }
        assert(0 <= h * x + y < p * x) by (nonlinear_arith)
            requires
                0 <= h < p,
                0 <= y < x,
        ;
    }
}

proof fn lemma_prefix_product_le(d: Seq<usize>, k: int)
    requires
        0 <= k <= d.len(),
        forall|i: int| 0 <= i < d.len() ==> #[trigger] d[i] > 0,
    ensures
        dims_product(d.subrange(0, k)) <= dims_product(d),
    decreases d.len() - k,
{
    if k < d.len() {
        lemma_prefix_product_le(d, k + 1);
        let s = d.subrange(0, k + 1);
        assert(s.drop_last() =~= d.subrange(0, k));
        assert(s.last() == d[k]);
        let p = dims_product(d.subrange(0, k)) as int;
        let x = d[k] as int;
        assert(p * x >= p) by (nonlinear_arith)
            requires
                p >= 0,
                x >= 1,
        ;
        assert(dims_product(s) == p * x);
    } else {
        assert(d.subrange(0, k) =~= d);
    }
}

/// A multi-dimensional array of flags, stored flat in row-major order.
#[derive(Clone, Debug)]
pub struct SignalSlice {
    pub dims: Vec<usize>,
    pub cells: Vec<bool>,
}

impl SignalSlice {
    pub open spec fn wf(&self) -> bool {
        self.cells@.len() == dims_product(self.dims@)
    }

    /// The flag at an in-range access path.
    pub open spec fn cell(&self, a: Seq<usize>) -> bool {
        self.cells@[row_major(self.dims@, a)]
    }

    /// An array of the given shape with every cell set to `init`.
    pub fn new_with_route(route: &Vec<usize>, init: bool) -> (r: SignalSlice)
        requires
            dims_product(route@) <= usize::MAX,
        ensures
            r.wf(),
            r.dims@ == route@,
            forall|i: int| 0 <= i < r.cells@.len() ==> #[trigger] r.cells@[i] == init,
    {
        let n = number_of_cells(route);
        let mut cells: Vec<bool> = Vec::new();
        let mut j: usize = 0;
        while j < n
            invariant
                j <= n,
                cells@.len() == j,
                forall|i: int| 0 <= i < j ==> #[trigger] cells@[i] == init,
            decreases n - j,
        {
            cells.push(init);
            j = j + 1;
        }
        SignalSlice { dims: route.clone(), cells }
    }

    pub fn get_number_of_cells(&self) -> (r: usize)
        requires
            self.wf(),
        ensures
            r == dims_product(self.dims@),
    {
        self.cells.len()
    }
}

impl SignalSlice {
    /// Whether the cell at `access` is set.
    pub fn get_single_value(&self, access: &[usize]) -> (r: Result<bool, MemoryError>)
        requires
            self.wf(),
        ensures
            r is Ok <==> access_in_range(self.dims@, access@),
            r is Ok ==> r->Ok_0 == self.cell(access@),
            r is Err ==> r->Err_0 == MemoryError::InvalidAccess,
    {
        proof {
            assert(self.cells@.len() == self.cells.len());
        }
        match flat_index(&self.dims, access) {
            Some(i) => {
                proof {
                    lemma_row_major_bound(self.dims@, access@);
                }
                Ok(self.cells[i])
            },
            None => Err(MemoryError::InvalidAccess),
        }
    }

    /// Sets the cell at `access` to `value`; nothing changes on an invalid path.
    pub fn set_single_value(&mut self, access: &[usize], value: bool) -> (r: Result<(), MemoryError>)
        requires
            old(self).wf(),
        ensures
            final(self).wf(),
            final(self).dims == old(self).dims,
            r is Ok <==> access_in_range(old(self).dims@, access@),
            r is Ok ==> final(self).cells@ == old(self).cells@.update(
                row_major(old(self).dims@, access@),
                value,
            ),
            r is Err ==> r->Err_0 == MemoryError::InvalidAccess && *final(self) == *old(self),
    {
        proof {
            assert(self.cells@.len() == self.cells.len());
        }
        match flat_index(&self.dims, access) {
            Some(i) => {
                proof {
                    lemma_row_major_bound(self.dims@, access@);
                }
                self.cells.set(i, value);
                Ok(())
            },
            None => Err(MemoryError::InvalidAccess),
        }
    }
}

/// The flat position of `access` in an array of shape `dims`, if the path names a cell.
pub fn flat_index(dims: &Vec<usize>, access: &[usize]) -> (r: Option<usize>)
    requires
        dims_product(dims@) <= usize::MAX,
    ensures
        r is Some <==> access_in_range(dims@, access@),
        r is Some ==> r->0 == row_major(dims@, access@),
{
    if access.len() != dims.len() {
        return None;
    }
    let mut k: usize = 0;
    while k < dims.len()
        invariant
            0 <= k <= dims@.len(),
            access@.len() == dims@.len(),
            forall|i: int| 0 <= i < k ==> #[trigger] access@[i] < dims@[i],
        decreases dims@.len() - k,
    {
        if access[k] >= dims[k] {
            return None;
        }
        k = k + 1;
    }
    proof {
        assert forall|i: int| 0 <= i < dims@.len() implies #[trigger] dims@[i] > 0 by {
            assert(access@[i] < dims@[i]);
        }
    }
    let mut idx: usize = 0;
    let mut k: usize = 0;
    while k < dims.len()
        invariant
            0 <= k <= dims@.len(),
            access@.len() == dims@.len(),
            access_in_range(dims@, access@),
            forall|i: int| 0 <= i < dims@.len() ==> #[trigger] dims@[i] > 0,
            dims_product(dims@) <= usize::MAX,
            idx == row_major(dims@.subrange(0, k as int), access@.subrange(0, k as int)),
        decreases dims@.len() - k,
    {
        let ghost sd = dims@.subrange(0, k as int + 1);
        let ghost sa = access@.subrange(0, k as int + 1);
        proof {
            assert(sd.drop_last() =~= dims@.subrange(0, k as int));
            assert(sa.drop_last() =~= access@.subrange(0, k as int));
            assert(access_in_range(sd, sa)) by {
                assert forall|i: int| 0 <= i < sa.len() implies #[trigger] sa[i] < sd[i] by {
                    assert(access@[i] < dims@[i]);
                }
            }
            lemma_row_major_bound(sd, sa);
            lemma_prefix_product_le(dims@, k as int + 1);
            assert(row_major(sd, sa) == idx * (dims@[k as int] as int) + access@[k as int]);
            assert(idx * (dims@[k as int] as int) <= row_major(sd, sa));
        }
        idx = idx * dims[k] + access[k];
        k = k + 1;
    }
    proof {
        assert(dims@.subrange(0, dims@.len() as int) =~= dims@);
        assert(access@.subrange(0, access@.len() as int) =~= access@);
    }
    Some(idx)
}

/// Distinct in-range access paths name distinct cells.
pub proof fn lemma_row_major_injective(d: Seq<usize>, a: Seq<usize>, b: Seq<usize>)
    requires
        access_in_range(d, a),
        access_in_range(d, b),
        row_major(d, a) == row_major(d, b),
    ensures
        a == b,
    decreases a.len(),
{
    if a.len() == 0 {
        assert(a =~= b);
    } else {
        let dp = d.drop_last();
        let ap = a.drop_last();
        let bp = b.drop_last();
        assert(access_in_range(dp, ap)) by {
            assert forall|i: int| 0 <= i < ap.len() implies #[trigger] ap[i] < dp[i] by {
                assert(a[i] < d[i]);
            }
        }
        assert(access_in_range(dp, bp)) by {
            assert forall|i: int| 0 <= i < bp.len() implies #[trigger] bp[i] < dp[i] by {
                assert(b[i] < d[i]);
            }
        }
        let x = d.last() as int;
        let ya = a.last() as int;
        let yb = b.last() as int;
        assert(ya < x && yb < x) by {
            assert(a[a.len() - 1] < d[d.len() - 1]);
            assert(b[b.len() - 1] < d[d.len() - 1]);
        }
        lemma_row_major_bound(dp, ap);
        lemma_row_major_bound(dp, bp);
        let ha = row_major(dp, ap);
        let hb = row_major(dp, bp);
        assert(ha == hb && ya == yb) by (nonlinear_arith)
            requires
                ha * x + ya == hb * x + yb,
                0 <= ya < x,
                0 <= yb < x,
                ha >= 0,
                hb >= 0,
        ;
        lemma_row_major_injective(dp, ap, bp);
        assert(a =~= ap.push(a.last()));
        assert(b =~= bp.push(b.last()));
    }
}

proof fn lemma_zero_dim(d: Seq<usize>, k: int)
    requires
        0 <= k < d.len(),
        d[k] == 0,
    ensures
        dims_product(d) == 0,
    decreases d.len(),
{
    assert(dims_product(d) == dims_product(d.drop_last()) * (d.last() as nat));
    if k < d.len() - 1 {
        assert(d.drop_last()[k] == d[k]);
        lemma_zero_dim(d.drop_last(), k);
    } else {
        assert(d.last() == 0);
    }
}

/// The number of cells of an array of the given shape.
pub fn number_of_cells(route: &Vec<usize>) -> (n: usize)
    requires
        dims_product(route@) <= usize::MAX,
    ensures
        n == dims_product(route@),
{
    let mut k: usize = 0;
    while k < route.len()
        invariant
            0 <= k <= route@.len(),
            forall|i: int| 0 <= i < k ==> #[trigger] route@[i] > 0,
        decreases route@.len() - k,
    {
        if route[k] == 0 {
            proof {
                lemma_zero_dim(route@, k as int);
            }
            return 0;
        }
        k = k + 1;
    }
    let mut n: usize = 1;
    let mut k: usize = 0;
    while k < route.len()
        invariant
            0 <= k <= route@.len(),
            forall|i: int| 0 <= i < route@.len() ==> #[trigger] route@[i] > 0,
            dims_product(route@) <= usize::MAX,
            n == dims_product(route@.subrange(0, k as int)),
        decreases route@.len() - k,
    {
        let ghost s = route@.subrange(0, k as int + 1);
        proof {
            assert(s.drop_last() =~= route@.subrange(0, k as int));
            lemma_prefix_product_le(route@, k as int + 1);
        }
        n = n * route[k];
        k = k + 1;
    }
    assert(route@.subrange(0, route@.len() as int) =~= route@);
    n
}

} // verus!
