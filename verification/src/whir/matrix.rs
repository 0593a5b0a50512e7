//! Dense row-major matrices.

use vstd::prelude::*;

verus! {

#[derive(Debug)]
pub struct DenseMatrix<T> {
    pub values: Vec<T>,
    pub width: usize,
}

/// The dimensions of a committed matrix.
#[derive(Clone, Copy, PartialEq, Eq, Structural, Debug)]
pub struct Dimensions {
    pub height: usize,
    pub width: usize,
}

impl<T> DenseMatrix<T> {
    /// The values fill whole rows.
    pub open spec fn wf(self) -> bool {
        self.width > 0 && self.values@.len() % (self.width as nat) == 0
    }

    pub open spec fn rows(self) -> int {
        self.values@.len() as int / self.width as int
    }

    /// Row `i`.
    pub open spec fn row_spec(self, i: int) -> Seq<T> {
        self.values@.subrange(i * self.width, (i + 1) * self.width)
    }

    pub fn new(values: Vec<T>, width: usize) -> (r: Self)
        requires
            width > 0,
            values@.len() % (width as nat) == 0,
        ensures
            r.wf(),
            r.values@ == values@,
            r.width == width,
    {
        DenseMatrix { values, width }
    }

    pub fn height(&self) -> (r: usize)
        requires
            self.wf(),
        ensures
            r == self.rows(),
    {
        self.values.len() / self.width
    }

    /// A row lies within the values.
    pub proof fn lemma_row_bounds(self, i: int)
        requires
            self.wf(),
            0 <= i < self.rows(),
        ensures
            0 <= i * self.width,
            (i + 1) * self.width <= self.values@.len(),
            (i + 1) * self.width == i * self.width + self.width,
            self.row_spec(i).len() == self.width,
    {
        let w = self.width as int;
        let n = self.values@.len() as int;
        vstd::arithmetic::div_mod::lemma_fundamental_div_mod(n, w);
        assert(0 <= i * w && (i + 1) * w <= n && (i + 1) * w == i * w + w) by (nonlinear_arith)
            requires
                0 <= i < n / w,
                n == w * (n / w),
                w > 0,
        ;
    }
}

impl<T: Copy> DenseMatrix<T> {
    /// Row `i`, copied.
    pub fn row(&self, i: usize) -> (r: Vec<T>)
        requires
            self.wf(),
            i < self.rows(),
        ensures
            r@ == self.row_spec(i as int),
    {
        proof {
            self.lemma_row_bounds(i as int);
        }
        let n: usize = self.values.len();
        let start: usize = i * self.width;
        let mut out: Vec<T> = Vec::new();
        let mut k: usize = 0;
        while k < self.width
            invariant
                k <= self.width,
                n == self.values.len(),
                start == i * self.width,
                start + self.width <= n,
                (i + 1) * self.width == i * self.width + self.width,
                out@.len() == k,
                forall|j: int| 0 <= j < k ==> #[trigger] out@[j] == self.values@[start + j],
            decreases self.width - k,
        {
            out.push(self.values[start + k]);
            k += 1;
        }
        assert(out@ =~= self.row_spec(i as int));
        out
    }
}

} // verus!
