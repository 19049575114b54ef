use vstd::prelude::*;
use crate::matrix_ops::{MatrixError, mview, has_shape, is_empty_matrix};

verus! {

/// The standard luminance table for quality level 50.
pub open spec fn standard_table() -> Seq<Seq<u32>> {
    seq![
        seq![16u32, 11, 10, 16, 24, 40, 51, 61],
        seq![12u32, 12, 14, 19, 26, 58, 60, 55],
        seq![14u32, 13, 16, 24, 40, 57, 69, 56],
        seq![14u32, 17, 22, 29, 51, 87, 80, 62],
        seq![18u32, 22, 37, 56, 68, 109, 103, 77],
        seq![24u32, 35, 55, 64, 81, 104, 113, 92],
        seq![49u32, 64, 78, 87, 103, 121, 120, 101],
        seq![72u32, 92, 95, 98, 112, 100, 103, 99],
    ]
}

/// A non-empty square table of positive divisors.
pub open spec fn is_valid_table(t: Seq<Seq<u32>>) -> bool {
    &&& t.len() > 0
    &&& has_shape(t, t.len() as int, t.len() as int)
    &&& forall|i: int, j: int| 0 <= i < t.len() && 0 <= j < t.len() ==> #[trigger] t[i][j] > 0
}

/// The divisor applied to each coefficient of a block during quantization.
pub struct QuantizationTable {
    divisors: Vec<Vec<u32>>,
}

impl View for QuantizationTable {
    type V = Seq<Seq<u32>>;

    closed spec fn view(&self) -> Seq<Seq<u32>> {
        mview(&self.divisors)
    }
}

impl QuantizationTable {
    /// The table is non-empty, square, and holds positive divisors only.
    pub closed spec fn wf(&self) -> bool {
        is_valid_table(self@)
    }

    /// The standard table for quality level 50, 8×8.
    pub fn standard() -> (r: QuantizationTable)
        ensures
            r.wf(),
            r@ == standard_table(),
    {
        let divisors: Vec<Vec<u32>> = vec![
            vec![16u32, 11, 10, 16, 24, 40, 51, 61],
            vec![12u32, 12, 14, 19, 26, 58, 60, 55],
            vec![14u32, 13, 16, 24, 40, 57, 69, 56],
            vec![14u32, 17, 22, 29, 51, 87, 80, 62],
            vec![18u32, 22, 37, 56, 68, 109, 103, 77],
            vec![24u32, 35, 55, 64, 81, 104, 113, 92],
            vec![49u32, 64, 78, 87, 103, 121, 120, 101],
            vec![72u32, 92, 95, 98, 112, 100, 103, 99],
        ];
        let r = QuantizationTable { divisors };
        assert(r@ =~= standard_table());
        assert(is_valid_table(standard_table()));
        r
    }

    /// A table made of `rows`; fails with `EmptyMatrix` when there are none,
    /// and with `IncompatibleDimensions` when they do not form a square of
    /// positive divisors.
    pub fn from_rows(rows: Vec<Vec<u32>>) -> (r: Result<QuantizationTable, MatrixError>)
        ensures
            r is Ok <==> is_valid_table(mview(&rows)),
            is_empty_matrix(mview(&rows)) <==> r matches Err(MatrixError::EmptyMatrix),
            r is Err && !is_empty_matrix(mview(&rows)) ==> r->Err_0 is IncompatibleDimensions,
            r matches Ok(t) ==> t.wf() && t@ == mview(&rows),
    {
        let ghost m = mview(&rows);
        let n = rows.len();
        if n == 0 || rows[0].len() == 0 {
            assert(is_empty_matrix(m));
            return Err(MatrixError::EmptyMatrix);
        }
        let mut i: usize = 0;
        while i < n
            invariant
                m == mview(&rows),
                n == m.len(),
                n > 0,
                m[0].len() > 0,
                i <= n,
                forall|x: int| 0 <= x < i ==> #[trigger] m[x].len() == n,
                forall|x: int, y: int| 0 <= x < i && 0 <= y < n ==> #[trigger] m[x][y] > 0,
            decreases n - i,
        {
            if rows[i].len() != n {
                assert(m[i as int].len() != n);
                return Err(MatrixError::IncompatibleDimensions(String::from_str("table must be square")));
            }
            let mut j: usize = 0;
            while j < n
                invariant
                    m == mview(&rows),
                    n == m.len(),
                    i < n,
                    m[0].len() > 0,
                    m[i as int].len() == n,
                    j <= n,
                    forall|y: int| 0 <= y < j ==> #[trigger] m[i as int][y] > 0,
                decreases n - j,
            {
                if rows[i][j] == 0 {
                    assert(m[i as int][j as int] == 0);
                    return Err(MatrixError::IncompatibleDimensions(String::from_str("divisors must be positive")));
                }
                j = j + 1;
            }
            i = i + 1;
        }
        Ok(QuantizationTable { divisors: rows })
    }

    /// The side length of the table.
    pub fn size(&self) -> (r: usize)
        requires
            self.wf(),
        ensures
            r == self@.len(),
            r > 0,
    {
        self.divisors.len()
    }

    /// The divisor at row `i`, column `j`.
    pub fn divisor(&self, i: usize, j: usize) -> (r: u32)
        requires
            self.wf(),
            i < self@.len(),
            j < self@.len(),
        ensures
            r == self@[i as int][j as int],
            r > 0,
    {
        assert(self@[i as int] == self.divisors@[i as int]@);
        self.divisors[i][j]
    }

    /// Checks that `block` has the table's shape, as quantization requires;
    /// fails with `IncompatibleDimensions` otherwise.
    pub fn check_block<T>(&self, block: &Vec<Vec<T>>) -> (r: Result<(), MatrixError>)
        requires
            self.wf(),
        ensures
            r is Ok <==> has_shape(mview(block), self@.len() as int, self@.len() as int),
            r is Err ==> r->Err_0 is IncompatibleDimensions,
    {
        let n = self.divisors.len();
        if block.len() != n {
            return Err(MatrixError::IncompatibleDimensions(String::from_str("block and table differ in shape")));
        }
        let mut i: usize = 0;
        while i < n
            invariant
                n == self@.len(),
                block@.len() == n,
                i <= n,
                forall|x: int| 0 <= x < i ==> #[trigger] mview(block)[x].len() == n,
            decreases n - i,
        {
            if block[i].len() != n {
                assert(mview(block)[i as int].len() != n);
                return Err(MatrixError::IncompatibleDimensions(String::from_str("block and table differ in shape")));
            }
            i = i + 1;
        }
        Ok(())
    }
}

} // verus!
