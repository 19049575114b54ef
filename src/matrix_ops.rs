use vstd::prelude::*;
use vstd::arithmetic::div_mod::{lemma_fundamental_div_mod, lemma_fundamental_div_mod_converse};

verus! {

/// Why an operation on matrices could not be carried out.
#[derive(Debug)]
pub enum MatrixError {
    IncompatibleDimensions(String),
    EmptyMatrix,
    DimensionMismatch,
}

/// The shape of a non-empty matrix: its number of rows and of columns.
#[derive(Debug, Clone, Copy, PartialEq, Eq, Structural)]
pub struct MatrixDimensions {
    pub rows: usize,
    pub cols: usize,
}

/// The rows of a matrix, each as a sequence of entries.
pub open spec fn mview<T>(m: &Vec<Vec<T>>) -> Seq<Seq<T>> {
    Seq::new(m@.len(), |i: int| m@[i]@)
}

/// A matrix is empty when it has no rows or its first row has no entries.
pub open spec fn is_empty_matrix<T>(m: Seq<Seq<T>>) -> bool {
    m.len() == 0 || m[0].len() == 0
}

/// `m` has `rows` rows of `cols` entries each.
pub open spec fn has_shape<T>(m: Seq<Seq<T>>, rows: int, cols: int) -> bool {
    &&& m.len() == rows
    &&& forall|i: int| 0 <= i < m.len() ==> #[trigger] m[i].len() == cols
}

/// Non-empty, and every row as long as the first.
pub open spec fn is_rectangular<T>(m: Seq<Seq<T>>) -> bool {
    !is_empty_matrix(m) && has_shape(m, m.len() as int, m[0].len() as int)
}

/// The `n`×`n` region of `m` whose top-left entry is at (`r0`, `c0`).
pub open spec fn block_at<T>(m: Seq<Seq<T>>, r0: int, c0: int, n: int) -> Seq<Seq<T>> {
    Seq::new(n as nat, |i: int| m[r0 + i].subrange(c0, c0 + n))
}

/// The blocks of `m`, `n`×`n` each, in raster order: block rows top to bottom,
/// and within a block row, left to right. Rows and columns left over at the
/// bottom and right edges, fewer than `n`, belong to no block.
pub open spec fn partition<T>(m: Seq<Seq<T>>, n: int) -> Seq<Seq<Seq<T>>> {
    let per_row = m[0].len() as int / n;
    Seq::new(
        ((m.len() as int / n) * per_row) as nat,
        |k: int| block_at(m, (k / per_row) * n, (k % per_row) * n, n),
    )
}

/// `t` with the region whose top-left entry is at (`r0`, `c0`) overwritten by `b`.
pub open spec fn place_block<T>(t: Seq<Seq<T>>, b: Seq<Seq<T>>, r0: int, c0: int) -> Seq<Seq<T>> {
    Seq::new(
        t.len(),
        |i: int|
            if r0 <= i < r0 + b.len() {
                Seq::new(
                    t[i].len(),
                    |j: int|
                        if c0 <= j < c0 + b[i - r0].len() {
                            b[i - r0][j - c0]
                        } else {
                            t[i][j]
                        },
                )
            } else {
                t[i]
            },
    )
}

/// Top row of the region that traversal position `index` stands for in a
/// matrix with `cols` columns cut into blocks of size `n`.
pub open spec fn block_row_start(index: int, cols: int, n: int) -> int {
    (index / (cols / n)) * n
}

/// Left column of the region that traversal position `index` stands for.
pub open spec fn block_col_start(index: int, cols: int, n: int) -> int {
    (index % (cols / n)) * n
}

/// `t` with block `b` written at traversal position `index`.
pub open spec fn merge_at<T>(t: Seq<Seq<T>>, b: Seq<Seq<T>>, index: int, n: int) -> Seq<Seq<T>> {
    let cols = t[0].len() as int;
    place_block(t, b, block_row_start(index, cols, n), block_col_start(index, cols, n))
}

/// Whether block `b` of size `n` can be written at traversal position `index`
/// of the non-empty matrix `t`: `n` is positive and no wider than `t`, `b` is
/// `n`×`n`, and the whole region lies within `t`.
pub open spec fn merge_fits<T>(t: Seq<Seq<T>>, b: Seq<Seq<T>>, index: int, n: int) -> bool {
    let cols = t[0].len() as int;
    let r0 = block_row_start(index, cols, n);
    let c0 = block_col_start(index, cols, n);
    &&& n > 0
    &&& cols / n > 0
    &&& has_shape(b, n, n)
    &&& r0 + n <= t.len()
    &&& forall|i: int| r0 <= i < r0 + n ==> c0 + n <= #[trigger] t[i].len()
}

/// The transpose of `m`, read with `m`'s first row giving the column count.
pub open spec fn transposed<T>(m: Seq<Seq<T>>) -> Seq<Seq<T>> {
    Seq::new(m[0].len(), |j: int| Seq::new(m.len(), |i: int| m[i][j]))
}

impl MatrixDimensions {
    /// The shape of `matrix`, read from its row count and the length of its first row.
    pub fn new<T>(matrix: &Vec<Vec<T>>) -> (r: Result<MatrixDimensions, MatrixError>)
        ensures
            is_empty_matrix(mview(matrix)) <==> r is Err,
            r is Err ==> r == Err::<MatrixDimensions, MatrixError>(MatrixError::EmptyMatrix),
            r matches Ok(d) ==> d.rows == matrix@.len() && d.cols == matrix@[0]@.len(),
    {
        if matrix.len() == 0 || matrix[0].len() == 0 {
            return Err(MatrixError::EmptyMatrix);
        }
        Ok(MatrixDimensions { rows: matrix.len(), cols: matrix[0].len() })
    }
}

/// A matrix together with its shape, read once.
pub struct MatrixView<'a, T> {
    data: &'a Vec<Vec<T>>,
    dimensions: MatrixDimensions,
}

impl<'a, T> MatrixView<'a, T> {
    pub closed spec fn data_spec(&self) -> &'a Vec<Vec<T>> {
        self.data
    }

    pub closed spec fn dimensions_spec(&self) -> MatrixDimensions {
        self.dimensions
    }

    /// A view of `matrix`; fails with `EmptyMatrix` on an empty matrix.
    pub fn new(matrix: &'a Vec<Vec<T>>) -> (r: Result<MatrixView<'a, T>, MatrixError>)
        ensures
            is_empty_matrix(mview(matrix)) <==> r is Err,
            r is Err ==> r->Err_0 is EmptyMatrix,
            r matches Ok(v) ==> v.data_spec() == matrix
                && v.dimensions_spec().rows == matrix@.len()
                && v.dimensions_spec().cols == matrix@[0]@.len(),
    {
        let dimensions = match MatrixDimensions::new(matrix) {
            Ok(d) => d,
            Err(e) => return Err(e),
        };
        Ok(MatrixView { data: matrix, dimensions })
    }

    #[verifier::when_used_as_spec(data_spec)]
    pub fn data(&self) -> (r: &'a Vec<Vec<T>>)
        ensures
            r == self.data_spec(),
    {
        self.data
    }

    #[verifier::when_used_as_spec(dimensions_spec)]
    pub fn dimensions(&self) -> (r: MatrixDimensions)
        ensures
            r == self.dimensions_spec(),
    {
        self.dimensions
    }
}

/// The shape of the product `left · right`: `left`'s rows by `right`'s columns.
///
/// Fails with `EmptyMatrix` when either operand is empty, and with
/// `IncompatibleDimensions` when either has rows of unequal length or
/// `left`'s column count differs from `right`'s row count.
pub fn multiply_dimensions<T>(left: &Vec<Vec<T>>, right: &Vec<Vec<T>>) -> (r: Result<MatrixDimensions, MatrixError>)
    ensures
        (is_empty_matrix(mview(left)) || is_empty_matrix(mview(right))) <==> r matches Err(MatrixError::EmptyMatrix),
        r is Ok <==> is_rectangular(mview(left)) && is_rectangular(mview(right))
            && left@[0]@.len() == right@.len(),
        r is Err && !is_empty_matrix(mview(left)) && !is_empty_matrix(mview(right))
            ==> r->Err_0 is IncompatibleDimensions,
        r matches Ok(d) ==> d.rows == left@.len() && d.cols == right@[0]@.len(),
{
    let left_dims = match MatrixDimensions::new(left) {
        Ok(d) => d,
        Err(e) => return Err(e),
    };
    let right_dims = match MatrixDimensions::new(right) {
        Ok(d) => d,
        Err(e) => return Err(e),
    };
    match check_rectangular(left, left_dims) {
        Ok(()) => {},
        Err(e) => return Err(e),
    }
    match check_rectangular(right, right_dims) {
        Ok(()) => {},
        Err(e) => return Err(e),
    }
    if left_dims.cols != right_dims.rows {
        return Err(MatrixError::IncompatibleDimensions(String::from_str("left matrix columns must match right matrix rows")));
    }
    Ok(MatrixDimensions { rows: left_dims.rows, cols: right_dims.cols })
}

/// Checks that every row of the non-empty `matrix` is as long as the first.
fn check_rectangular<T>(matrix: &Vec<Vec<T>>, dims: MatrixDimensions) -> (r: Result<(), MatrixError>)
    requires
        !is_empty_matrix(mview(matrix)),
        dims.rows == matrix@.len(),
        dims.cols == matrix@[0]@.len(),
    ensures
        r is Ok <==> is_rectangular(mview(matrix)),
        r is Err ==> r->Err_0 is IncompatibleDimensions,
{
    let mut i: usize = 0;
    while i < dims.rows
        invariant
            dims.rows == matrix@.len(),
            dims.cols == matrix@[0]@.len(),
            i <= dims.rows,
            forall|k: int| 0 <= k < i ==> #[trigger] matrix@[k]@.len() == dims.cols,
        decreases dims.rows - i,
    {
        if matrix[i].len() != dims.cols {
            assert(mview(matrix)[i as int].len() != mview(matrix)[0].len());
            return Err(MatrixError::IncompatibleDimensions(String::from_str("rows of unequal length")));
        }
        i = i + 1;
    }
    Ok(())
}


/// A block index `b` below `len / n` leaves room for a whole block of size `n`.
proof fn lemma_block_fits(b: int, len: int, n: int)
    requires
        0 <= b,
        0 <= len,
        0 < n,
        b < len / n,
    ensures
        b * n + n <= len,
{
    lemma_fundamental_div_mod(len, n);
    let q = len / n;
    assert((b + 1) * n <= q * n) by (nonlinear_arith)
        requires
            b + 1 <= q,
            0 < n,
    ;
    assert(n * q == q * n) by (nonlinear_arith);
    assert((b + 1) * n == b * n + n) by (nonlinear_arith);
}

/// Position `b * per_row + c` in raster order names block row `b` and block column `c`.
proof fn lemma_raster_index(b: int, c: int, per_row: int)
    requires
        0 <= b,
        0 <= c < per_row,
    ensures
        (b * per_row + c) / per_row == b,
        (b * per_row + c) % per_row == c,
{
    assert(b * per_row == per_row * b) by (nonlinear_arith);
    lemma_fundamental_div_mod_converse(b * per_row + c, per_row, b, c);
}

/// Copies the `size`×`size` region of `matrix` whose top-left entry is at
/// (`start_row`, `start_col`).
fn extract_block<T: Copy>(matrix: &Vec<Vec<T>>, start_row: usize, start_col: usize, size: usize) -> (block: Vec<Vec<T>>)
    requires
        start_row + size <= matrix@.len(),
        forall|i: int| start_row <= i < start_row + size ==> start_col + size <= #[trigger] matrix@[i]@.len(),
    ensures
        mview(&block) == block_at(mview(matrix), start_row as int, start_col as int, size as int),
{
    let mut block: Vec<Vec<T>> = Vec::new();
    let total_rows = matrix.len();
    let mut r: usize = 0;
    while r < size
        invariant
            r <= size,
            total_rows == matrix@.len(),
            start_row + size <= matrix@.len(),
            forall|i: int| start_row <= i < start_row + size ==> start_col + size <= #[trigger] matrix@[i]@.len(),
            block@.len() == r,
            forall|i: int| 0 <= i < r ==> #[trigger] block@[i]@ == matrix@[start_row + i]@.subrange(start_col as int, start_col + size),
        decreases size - r,
    {
        let row = start_row + r;
        let mut block_row: Vec<T> = Vec::new();
        let row_len = matrix[row].len();
        let mut c: usize = 0;
        while c < size
            invariant
                c <= size,
                row_len == matrix@[row as int]@.len(),
                row < matrix@.len(),
                start_col + size <= matrix@[row as int]@.len(),
                block_row@ == matrix@[row as int]@.subrange(start_col as int, start_col + c),
            decreases size - c,
        {
            let value: T = matrix[row][start_col + c];
            block_row.push(value);
            c = c + 1;
            assert(block_row@ =~= matrix@[row as int]@.subrange(start_col as int, start_col + c));
        }
        block.push(block_row);
        r = r + 1;
    }
    assert(mview(&block) =~= block_at(mview(matrix), start_row as int, start_col as int, size as int));
    block
}

/// Cuts `matrix` into `block_size`×`block_size` blocks in raster order.
///
/// Rows and columns left over at the bottom and right edges, fewer than a
/// block, are dropped. Fails with `EmptyMatrix` on an empty matrix, and with
/// `IncompatibleDimensions` when rows differ in length or the block size is 0.
pub fn partition_into_blocks<T: Copy>(matrix: &Vec<Vec<T>>, block_size: usize) -> (r: Result<Vec<Vec<Vec<T>>>, MatrixError>)
    ensures
        r is Ok <==> is_rectangular(mview(matrix)) && block_size > 0,
        is_empty_matrix(mview(matrix)) <==> r matches Err(MatrixError::EmptyMatrix),
        r is Err && !is_empty_matrix(mview(matrix)) ==> r->Err_0 is IncompatibleDimensions,
        r matches Ok(blocks) ==> blocks@.len() == partition(mview(matrix), block_size as int).len()
            && forall|k: int| 0 <= k < blocks@.len() ==>
                mview(#[trigger] &blocks@[k]) == partition(mview(matrix), block_size as int)[k],
{
    let dims = match MatrixDimensions::new(matrix) {
        Ok(d) => d,
        Err(e) => return Err(e),
    };
    match check_rectangular(matrix, dims) {
        Ok(()) => {},
        Err(e) => return Err(e),
    }
    if block_size == 0 {
        return Err(MatrixError::IncompatibleDimensions(String::from_str("block size must be positive")));
    }
    let ghost m = mview(matrix);
    let ghost parts = partition(m, block_size as int);
    let n = block_size;
    let block_rows = dims.rows / n;
    let per_row = dims.cols / n;
    assert(m.len() == dims.rows && m[0].len() == dims.cols);
    let mut blocks: Vec<Vec<Vec<T>>> = Vec::new();
    let mut b: usize = 0;
    while b < block_rows
        invariant
            m == mview(matrix),
            parts == partition(m, n as int),
            is_rectangular(m),
            m.len() == dims.rows,
            m[0].len() == dims.cols,
            n > 0,
            block_rows == dims.rows / n,
            per_row == dims.cols / n,
            parts.len() == block_rows * per_row,
            b <= block_rows,
            blocks@.len() == b * per_row,
            forall|k: int| 0 <= k < blocks@.len() ==> mview(#[trigger] &blocks@[k]) == parts[k],
        decreases block_rows - b,
    {
        proof { lemma_block_fits(b as int, dims.rows as int, n as int); }
        let mut c: usize = 0;
        while c < per_row
            invariant
                m == mview(matrix),
                parts == partition(m, n as int),
                is_rectangular(m),
                m.len() == dims.rows,
                m[0].len() == dims.cols,
                n > 0,
                block_rows == dims.rows / n,
                per_row == dims.cols / n,
                parts.len() == block_rows * per_row,
                b < block_rows,
                b * n + n <= dims.rows,
                c <= per_row,
                blocks@.len() == b * per_row + c,
                forall|k: int| 0 <= k < blocks@.len() ==> mview(#[trigger] &blocks@[k]) == parts[k],
            decreases per_row - c,
        {
            proof {
                lemma_block_fits(c as int, dims.cols as int, n as int);
                lemma_raster_index(b as int, c as int, per_row as int);
                assert(b * per_row + c < block_rows * per_row) by (nonlinear_arith)
                    requires
                        b < block_rows,
                        c < per_row,
                ;
                assert forall|i: int| b * n <= i < b * n + n implies c * n + n <= #[trigger] matrix@[i]@.len() by {
                    assert(m[i] == matrix@[i]@);
                }
            }
            let block = extract_block(matrix, b * n, c * n, n);
            blocks.push(block);
            c = c + 1;
        }
        b = b + 1;
        assert(b * per_row == (b - 1) * per_row + per_row) by (nonlinear_arith);
    }
    assert(blocks@.len() == parts.len());
    Ok(blocks)
}

/// The transpose of `matrix`: entry (`j`, `i`) of the result is entry (`i`, `j`)
/// of `matrix`. Fails with `EmptyMatrix` on an empty matrix, and with
/// `IncompatibleDimensions` when rows differ in length.
pub fn transpose<T: Copy>(matrix: &Vec<Vec<T>>) -> (r: Result<Vec<Vec<T>>, MatrixError>)
    ensures
        r is Ok <==> is_rectangular(mview(matrix)),
        is_empty_matrix(mview(matrix)) <==> r matches Err(MatrixError::EmptyMatrix),
        r is Err && !is_empty_matrix(mview(matrix)) ==> r->Err_0 is IncompatibleDimensions,
        r matches Ok(t) ==> mview(&t) == transposed(mview(matrix)),
{
    let dims = match MatrixDimensions::new(matrix) {
        Ok(d) => d,
        Err(e) => return Err(e),
    };
    match check_rectangular(matrix, dims) {
        Ok(()) => {},
        Err(e) => return Err(e),
    }
    let ghost m = mview(matrix);
    let mut result: Vec<Vec<T>> = Vec::new();
    let mut j: usize = 0;
    while j < dims.cols
        invariant
            m == mview(matrix),
            is_rectangular(m),
            m.len() == dims.rows,
            m[0].len() == dims.cols,
            j <= dims.cols,
            result@.len() == j,
            forall|k: int| 0 <= k < j ==> #[trigger] result@[k]@ == transposed(m)[k],
        decreases dims.cols - j,
    {
        let mut column: Vec<T> = Vec::new();
        let mut i: usize = 0;
        while i < dims.rows
            invariant
                m == mview(matrix),
                is_rectangular(m),
                m.len() == dims.rows,
                m[0].len() == dims.cols,
                j < dims.cols,
                i <= dims.rows,
                column@ == Seq::new(i as nat, |x: int| m[x][j as int]),
            decreases dims.rows - i,
        {
            assert(m[i as int] == matrix@[i as int]@);
            let value: T = matrix[i][j];
            column.push(value);
            i = i + 1;
            assert(column@ =~= Seq::new(i as nat, |x: int| m[x][j as int]));
        }
        assert(column@ =~= transposed(m)[j as int]);
        result.push(column);
        j = j + 1;
    }
    assert(mview(&result) =~= transposed(m));
    Ok(result)
}

/// Block row `b` of a matrix with `len` rows, cut by `n`, starts at `b * n`
/// and ends within the matrix exactly when `b < len / n`.
proof fn lemma_block_row_in_range(b: int, len: int, n: int)
    requires
        0 <= b,
        0 <= len,
        0 < n,
    ensures
        b < len / n <==> b * n + n <= len,
{
    if b < len / n {
        lemma_block_fits(b, len, n);
    } else {
        lemma_fundamental_div_mod(len, n);
        let q = len / n;
        assert(len < q * n + n) by (nonlinear_arith)
            requires
                len == n * q + len % n,
                len % n < n,
        ;
        assert(q * n + n <= b * n + n) by (nonlinear_arith)
            requires
                q <= b,
                0 < n,
        ;
    }
}

/// Writes the `block_size`×`block_size` `block` into `target` at the region
/// that traversal position `block_index` stands for: block row
/// `block_index / (cols / block_size)`, block column `block_index % (cols / block_size)`.
///
/// Fails with `EmptyMatrix` on an empty target, and with
/// `IncompatibleDimensions` when the block size is 0 or wider than the
/// target, when `block` is not `block_size`×`block_size`, or when the region
/// leaves the target. On failure `target` is left as it was.
pub fn merge_blocks<T: Copy>(target: &mut Vec<Vec<T>>, block: &Vec<Vec<T>>, block_index: usize, block_size: usize) -> (r: Result<(), MatrixError>)
    ensures
        is_empty_matrix(mview(old(target))) <==> r matches Err(MatrixError::EmptyMatrix),
        r is Ok <==> !is_empty_matrix(mview(old(target)))
            && merge_fits(mview(old(target)), mview(block), block_index as int, block_size as int),
        r is Err && !is_empty_matrix(mview(old(target))) ==> r->Err_0 is IncompatibleDimensions,
        r is Err ==> final(target)@ == old(target)@,
        r is Ok ==> mview(final(target)) == merge_at(mview(old(target)), mview(block), block_index as int, block_size as int),
{
    let ghost t0 = mview(target);
    let ghost b0 = mview(block);
    let dims = match MatrixDimensions::new(target) {
        Ok(d) => d,
        Err(e) => return Err(e),
    };
    let n = block_size;
    if n == 0 || dims.cols / n == 0 {
        return Err(MatrixError::IncompatibleDimensions(String::from_str("block size must be positive and fit the target")));
    }
    let per_row = dims.cols / n;
    if block.len() != n {
        return Err(MatrixError::IncompatibleDimensions(String::from_str("block must be square of the block size")));
    }
    let mut k: usize = 0;
    while k < n
        invariant
            t0 == mview(target),
            t0.len() == dims.rows,
            t0[0].len() == dims.cols,
            dims.rows > 0,
            dims.cols > 0,
            b0 == mview(block),
            block@.len() == n,
            k <= n,
            forall|x: int| 0 <= x < k ==> #[trigger] b0[x].len() == n,
        decreases n - k,
    {
        if block[k].len() != n {
            assert(b0[k as int].len() != n);
            return Err(MatrixError::IncompatibleDimensions(String::from_str("block must be square of the block size")));
        }
        k = k + 1;
    }
    assert(has_shape(b0, n as int, n as int));
    let q = block_index / per_row;
    proof { lemma_block_row_in_range(q as int, dims.rows as int, n as int); }
    if q >= dims.rows / n {
        return Err(MatrixError::IncompatibleDimensions(String::from_str("block lies outside the target")));
    }
    let r0 = q * n;
    let col_block = block_index % per_row;
    proof { lemma_block_fits(col_block as int, dims.cols as int, n as int); }
    let c0 = col_block * n;
    assert(r0 == block_row_start(block_index as int, dims.cols as int, n as int));
    assert(c0 == block_col_start(block_index as int, dims.cols as int, n as int));
    let mut i: usize = 0;
    while i < n
        invariant
            t0 == mview(target),
            t0.len() == dims.rows,
            t0[0].len() == dims.cols,
            dims.rows > 0,
            dims.cols > 0,
            r0 + n <= dims.rows,
            c0 + n <= dims.cols,
            b0 == mview(block),
            n == block_size,
            r0 == block_row_start(block_index as int, dims.cols as int, n as int),
            c0 == block_col_start(block_index as int, dims.cols as int, n as int),
            i <= n,
            forall|x: int| r0 <= x < r0 + i ==> c0 + n <= #[trigger] t0[x].len(),
        decreases n - i,
    {
        if target[r0 + i].len() < c0 + n {
            assert(t0[r0 + i].len() < c0 + n);
            assert(!merge_fits(t0, b0, block_index as int, n as int)) by {
                let x = (r0 + i) as int;
                assert(r0 <= x < r0 + n);
                assert(!(c0 + n <= t0[x].len()));
            }
            return Err(MatrixError::IncompatibleDimensions(String::from_str("block lies outside the target")));
        }
        i = i + 1;
    }
    assert(merge_fits(t0, b0, block_index as int, n as int));
    let mut i: usize = 0;
    while i < n
        invariant
            b0 == mview(block),
            has_shape(b0, n as int, n as int),
            t0.len() == dims.rows,
            r0 + n <= dims.rows,
            c0 + n <= dims.cols,
            forall|x: int| r0 <= x < r0 + n ==> c0 + n <= #[trigger] t0[x].len(),
            i <= n,
            target@.len() == t0.len(),
            forall|x: int| 0 <= x < t0.len() ==> #[trigger] target@[x]@.len() == t0[x].len(),
            forall|x: int, y: int| 0 <= x < t0.len() && 0 <= y < t0[x].len() ==>
                #[trigger] target@[x]@[y] == if r0 <= x < r0 + i && c0 <= y < c0 + n {
                    b0[x - r0][y - c0]
                } else {
                    t0[x][y]
                },
        decreases n - i,
    {
        let mut j: usize = 0;
        while j < n
            invariant
                b0 == mview(block),
                has_shape(b0, n as int, n as int),
                t0.len() == dims.rows,
                r0 + n <= dims.rows,
                c0 + n <= dims.cols,
                forall|x: int| r0 <= x < r0 + n ==> c0 + n <= #[trigger] t0[x].len(),
                i < n,
                j <= n,
                target@.len() == t0.len(),
                forall|x: int| 0 <= x < t0.len() ==> #[trigger] target@[x]@.len() == t0[x].len(),
                forall|x: int, y: int| 0 <= x < t0.len() && 0 <= y < t0[x].len() ==>
                    #[trigger] target@[x]@[y] == if (r0 <= x < r0 + i && c0 <= y < c0 + n)
                        || (x == r0 + i && c0 <= y < c0 + j) {
                        b0[x - r0][y - c0]
                    } else {
                        t0[x][y]
                    },
            decreases n - j,
        {
            assert(b0[i as int] == block@[i as int]@);
            let value: T = block[i][j];
            target[r0 + i][c0 + j] = value;
            j = j + 1;
        }
        i = i + 1;
    }
    assert forall|x: int| 0 <= x < t0.len() implies #[trigger] mview(target)[x] =~= place_block(t0, b0, r0 as int, c0 as int)[x] by {
        assert(mview(target)[x] == target@[x]@);
    }
    assert(mview(target) =~= place_block(t0, b0, r0 as int, c0 as int));
    Ok(())
}

/// `t` after writing each of `blocks`, in order, at its own traversal position.
pub open spec fn merge_all<T>(t: Seq<Seq<T>>, blocks: Seq<Seq<Seq<T>>>, n: int) -> Seq<Seq<T>>
    decreases blocks.len(),
{
    if blocks.len() == 0 {
        t
    } else {
        merge_at(merge_all(t, blocks.drop_last(), n), blocks.last(), blocks.len() - 1, n)
    }
}

/// Entry `i` lies in the stretch `[q * n, q * n + n)` exactly when `i / n == q`.
proof fn lemma_in_stretch(i: int, n: int, q: int)
    requires
        0 <= i,
        0 < n,
        0 <= q,
    ensures
        (q * n <= i < q * n + n) <==> i / n == q,
{
    if q * n <= i < q * n + n {
        assert(q * n == n * q) by (nonlinear_arith);
        lemma_fundamental_div_mod_converse(i, n, q, i - q * n);
    }
    if i / n == q {
        lemma_fundamental_div_mod(i, n);
        assert(q * n == n * q) by (nonlinear_arith);
    }
}

/// Entry (`i`, `j`) lies in the region of block `k` exactly when block row
/// `i / n` and block column `j / n` give `k` in raster order.
proof fn lemma_region_of_entry(i: int, j: int, k: int, n: int, per_row: int, cols: int)
    requires
        0 <= i,
        0 <= j < cols,
        0 <= k,
        0 < n,
        cols == per_row * n,
    ensures
        ((k / per_row) * n <= i < (k / per_row) * n + n && (k % per_row) * n <= j < (k % per_row) * n + n)
            <==> (i / n) * per_row + j / n == k,
{
    assert(per_row > 0) by (nonlinear_arith)
        requires
            cols == per_row * n,
            0 <= j < cols,
            0 < n,
    ;
    lemma_fundamental_div_mod(j, n);
    assert(j / n < per_row) by (nonlinear_arith)
        requires
            j == n * (j / n) + j % n,
            0 <= j % n,
            j < per_row * n,
            0 < n,
    ;
    assert(0 <= j / n) by (nonlinear_arith)
        requires
            0 <= j,
            0 < n,
    ;
    assert(0 <= i / n) by (nonlinear_arith)
        requires
            0 <= i,
            0 < n,
    ;
    lemma_in_stretch(i, n, k / per_row);
    lemma_in_stretch(j, n, k % per_row);
    lemma_raster_index(i / n, j / n, per_row);
    lemma_fundamental_div_mod(k, per_row);
    assert(per_row * (k / per_row) == (k / per_row) * per_row) by (nonlinear_arith);
}

/// Block `k` of the partition of a matrix whose sides are multiples of `n`
/// fits at traversal position `k`, and covers rows `[r0, r0 + n)` and columns
/// `[c0, c0 + n)` of the matrix.
proof fn lemma_block_placement(rows: int, cols: int, n: int, k: int)
    requires
        0 < n,
        0 < rows,
        0 < cols,
        rows % n == 0,
        cols % n == 0,
        0 <= k < (rows / n) * (cols / n),
    ensures
        cols / n > 0,
        0 <= block_row_start(k, cols, n),
        block_row_start(k, cols, n) + n <= rows,
        0 <= block_col_start(k, cols, n),
        block_col_start(k, cols, n) + n <= cols,
        cols == (cols / n) * n,
{
    let per_row = cols / n;
    let q = rows / n;
    lemma_fundamental_div_mod(rows, n);
    lemma_fundamental_div_mod(cols, n);
    assert(cols == per_row * n) by (nonlinear_arith)
        requires
            cols == n * per_row + cols % n,
            cols % n == 0,
    ;
    assert(rows == q * n) by (nonlinear_arith)
        requires
            rows == n * q + rows % n,
            rows % n == 0,
    ;
    assert(per_row > 0) by (nonlinear_arith)
        requires
            cols == per_row * n,
            0 < cols,
            0 < n,
    ;
    lemma_fundamental_div_mod(k, per_row);
    let kr = k / per_row;
    let kc = k % per_row;
    assert(0 <= kr) by (nonlinear_arith)
        requires
            0 <= k,
            0 < per_row,
            kr == k / per_row,
    ;
    assert(kr < q) by (nonlinear_arith)
        requires
            k == per_row * kr + kc,
            0 <= kc,
            k < q * per_row,
            0 < per_row,
    ;
    assert(kr * n + n <= rows) by (nonlinear_arith)
        requires
            kr + 1 <= q,
            rows == q * n,
            0 < n,
    ;
    assert(kc * n + n <= cols) by (nonlinear_arith)
        requires
            kc + 1 <= per_row,
            cols == per_row * n,
            0 < n,
    ;
    assert(0 <= kr * n && 0 <= kc * n) by (nonlinear_arith)
        requires
            0 <= kr,
            0 <= kc,
            0 < n,
    ;
}

/// After the first `k` blocks of the partition of `m` have been merged into
/// `t`, each entry comes from `m` if its block is among them, and from `t`
/// otherwise; and each of those merges fitted.
proof fn lemma_merge_prefix<T>(m: Seq<Seq<T>>, t: Seq<Seq<T>>, n: int, k: int)
    requires
        is_rectangular(m),
        0 < n,
        m.len() as int % n == 0,
        m[0].len() as int % n == 0,
        has_shape(t, m.len() as int, m[0].len() as int),
        0 <= k <= partition(m, n).len(),
    ensures
        has_shape(merge_all(t, partition(m, n).take(k), n), m.len() as int, m[0].len() as int),
        forall|i: int, j: int| 0 <= i < m.len() && 0 <= j < m[0].len() ==>
            #[trigger] merge_all(t, partition(m, n).take(k), n)[i][j]
                == if (i / n) * (m[0].len() as int / n) + j / n < k { m[i][j] } else { t[i][j] },
        forall|x: int| 0 <= x < k ==> merge_fits(
            #[trigger] merge_all(t, partition(m, n).take(x), n), partition(m, n)[x], x, n),
    decreases k,
{
    let rows = m.len() as int;
    let cols = m[0].len() as int;
    let per_row = cols / n;
    let parts = partition(m, n);
    if k == 0 {
        assert(parts.take(0) =~= Seq::<Seq<Seq<T>>>::empty());
        assert forall|i: int, j: int| 0 <= i < rows && 0 <= j < cols implies
            #[trigger] merge_all(t, parts.take(0), n)[i][j]
                == if (i / n) * per_row + j / n < 0 { m[i][j] } else { t[i][j] } by {
            assert(0 <= i / n && 0 <= j / n && 0 <= per_row) by (nonlinear_arith)
                requires
                    0 <= i,
                    0 <= j,
                    0 <= cols,
                    0 < n,
                    per_row == cols / n,
            ;
            assert((i / n) * per_row >= 0) by (nonlinear_arith)
                requires
                    0 <= i / n,
                    0 <= per_row,
            ;
        }
    } else {
        lemma_merge_prefix(m, t, n, k - 1);
        let prev = merge_all(t, parts.take(k - 1), n);
        assert(parts.take(k).drop_last() =~= parts.take(k - 1));
        assert(parts.take(k).last() == parts[k - 1]);
        lemma_block_placement(rows, cols, n, k - 1);
        let r0 = block_row_start(k - 1, cols, n);
        let c0 = block_col_start(k - 1, cols, n);
        let b = parts[k - 1];
        assert(b == block_at(m, r0, c0, n));
        assert(prev[0].len() == cols);
        assert(has_shape(b, n, n));
        assert(merge_fits(prev, b, k - 1, n));
        let next = merge_all(t, parts.take(k), n);
        assert(next == place_block(prev, b, r0, c0));
        assert forall|i: int, j: int| 0 <= i < rows && 0 <= j < cols implies
            #[trigger] next[i][j] == if (i / n) * per_row + j / n < k { m[i][j] } else { t[i][j] } by {
            lemma_region_of_entry(i, j, k - 1, n, per_row, cols);
            if r0 <= i < r0 + n && c0 <= j < c0 + n {
                assert(next[i][j] == b[i - r0][j - c0]);
                assert(b[i - r0][j - c0] == m[i][j]);
            }
        }
        assert forall|x: int| 0 <= x < k implies merge_fits(
            #[trigger] merge_all(t, parts.take(x), n), parts[x], x, n) by {
            if x == k - 1 {
                assert(merge_all(t, parts.take(x), n) == prev);
            }
        }
    }
}

/// Every entry of a matrix whose sides are multiples of `n` lies in one of its blocks.
proof fn lemma_entry_in_some_block(i: int, j: int, rows: int, cols: int, n: int)
    requires
        0 <= i < rows,
        0 <= j < cols,
        0 < n,
        rows % n == 0,
        cols % n == 0,
    ensures
        (i / n) * (cols / n) + j / n < (rows / n) * (cols / n),
{
    let per_row = cols / n;
    lemma_fundamental_div_mod(rows, n);
    lemma_fundamental_div_mod(cols, n);
    lemma_fundamental_div_mod(i, n);
    lemma_fundamental_div_mod(j, n);
    let q = rows / n;
    assert(i / n < q) by (nonlinear_arith)
        requires
            i == n * (i / n) + i % n,
            0 <= i % n,
            i < rows,
            rows == n * q + rows % n,
            rows % n == 0,
            0 < n,
    ;
    assert(j / n < per_row) by (nonlinear_arith)
        requires
            j == n * (j / n) + j % n,
            0 <= j % n,
            j < cols,
            cols == n * per_row + cols % n,
            cols % n == 0,
            0 < n,
    ;
    assert(0 <= j / n) by (nonlinear_arith)
        requires
            0 <= j,
            0 < n,
    ;
    assert((i / n) * per_row + j / n < q * per_row) by (nonlinear_arith)
        requires
            i / n + 1 <= q,
            0 <= j / n < per_row,
    ;
}

/// Cutting a matrix whose sides are multiples of `n` into blocks and merging
/// every block back, in traversal order, into any matrix of the same shape
/// reproduces the original; each of those merges fits, so none of them fails.
pub proof fn lemma_partition_merge_round_trip<T>(m: Seq<Seq<T>>, t: Seq<Seq<T>>, n: int)
    requires
        is_rectangular(m),
        0 < n,
        m.len() as int % n == 0,
        m[0].len() as int % n == 0,
        has_shape(t, m.len() as int, m[0].len() as int),
    ensures
        merge_all(t, partition(m, n), n) == m,
        forall|k: int| 0 <= k < partition(m, n).len() ==> merge_fits(
            #[trigger] merge_all(t, partition(m, n).take(k), n), partition(m, n)[k], k, n),
{
    let parts = partition(m, n);
    let rows = m.len() as int;
    let cols = m[0].len() as int;
    let per_row = cols / n;
    lemma_merge_prefix(m, t, n, parts.len() as int);
    assert(parts.take(parts.len() as int) =~= parts);
    let r = merge_all(t, parts, n);
    assert forall|i: int| 0 <= i < rows implies #[trigger] r[i] =~= m[i] by {
        assert forall|j: int| 0 <= j < cols implies r[i][j] == m[i][j] by {
            lemma_entry_in_some_block(i, j, rows, cols, n);
            assert(r[i][j] == merge_all(t, parts.take(parts.len() as int), n)[i][j]);
        }
    }
    assert(r =~= m);
}

} // verus!
