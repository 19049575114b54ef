use vstd::prelude::*;
use crate::matrix_ops::{
    MatrixDimensions, MatrixError, mview, is_rectangular, has_shape, merge_all, merge_fits, merge_blocks,
};

verus! {

/// Length of the first row of `m`, or 0 when it has none.
pub open spec fn first_row_len<T>(m: Seq<Seq<T>>) -> int {
    if m.len() == 0 { 0 } else { m[0].len() as int }
}

/// Each block of `blocks`, as rows of entries.
pub open spec fn block_views<T>(blocks: &Vec<Vec<Vec<T>>>) -> Seq<Seq<Seq<T>>> {
    Seq::new(blocks@.len(), |x: int| mview(&blocks@[x]))
}

/// A `rows`×`cols` matrix with every entry equal to `fill`.
pub open spec fn filled<T>(rows: int, cols: int, fill: T) -> Seq<Seq<T>> {
    Seq::new(rows as nat, |i: int| Seq::new(cols as nat, |j: int| fill))
}

/// Checks an image at the boundary of the compression pipeline.
///
/// Fails with `DimensionMismatch` when the image does not have `height` rows
/// and a first row of `width` entries; then with `EmptyMatrix` when it has no
/// entries; then with `IncompatibleDimensions` when its rows differ in length,
/// the block size is 0, or a side is not a multiple of the block size.
pub fn validate_image_dimensions<T>(image: &Vec<Vec<T>>, width: usize, height: usize, block_size: usize) -> (r: Result<MatrixDimensions, MatrixError>)
    ensures
        (image@.len() != height || first_row_len(mview(image)) != width)
            <==> r matches Err(MatrixError::DimensionMismatch),
        (image@.len() == height && first_row_len(mview(image)) == width && (height == 0 || width == 0))
            <==> r matches Err(MatrixError::EmptyMatrix),
        r is Ok <==> image@.len() == height && first_row_len(mview(image)) == width
            && is_rectangular(mview(image)) && block_size > 0
            && height % block_size == 0 && width % block_size == 0,
        r matches Ok(d) ==> d.rows == height && d.cols == width,
{
    let actual_height = image.len();
    let actual_width = if image.len() == 0 { 0 } else { image[0].len() };
    assert(actual_width == first_row_len(mview(image)));
    if actual_height != height || actual_width != width {
        return Err(MatrixError::DimensionMismatch);
    }
    let dims = match MatrixDimensions::new(image) {
        Ok(d) => d,
        Err(e) => return Err(e),
    };
    let mut i: usize = 0;
    while i < dims.rows
        invariant
            dims.rows == image@.len(),
            dims.cols == image@[0]@.len(),
            dims.rows == height,
            dims.cols == width,
            height > 0,
            width > 0,
            first_row_len(mview(image)) == width,
            i <= dims.rows,
            forall|k: int| 0 <= k < i ==> #[trigger] mview(image)[k].len() == dims.cols,
        decreases dims.rows - i,
    {
        if image[i].len() != dims.cols {
            assert(mview(image)[i as int].len() != mview(image)[0].len());
            return Err(MatrixError::IncompatibleDimensions(String::from_str("rows of unequal length")));
        }
        i = i + 1;
    }
    if block_size == 0 || height % block_size != 0 || width % block_size != 0 {
        return Err(MatrixError::IncompatibleDimensions(String::from_str("image sides must be multiples of the block size")));
    }
    Ok(dims)
}

/// Builds a `rows`×`cols` image from `blocks`, writing block `k` at
/// traversal position `k` into an image first filled with `fill`.
///
/// Fails with `EmptyMatrix` when the image would have no entries, and with
/// `IncompatibleDimensions` at the first block that does not fit.
pub fn assemble_blocks<T: Copy>(blocks: &Vec<Vec<Vec<T>>>, rows: usize, cols: usize, block_size: usize, fill: T) -> (r: Result<Vec<Vec<T>>, MatrixError>)
    ensures
        (rows == 0 || cols == 0) <==> r matches Err(MatrixError::EmptyMatrix),
        r is Ok <==> rows > 0 && cols > 0 && forall|k: int| 0 <= k < blocks@.len() ==> merge_fits(
            #[trigger] merge_all(filled(rows as int, cols as int, fill), block_views(blocks).take(k), block_size as int),
            mview(&blocks@[k]),
            k,
            block_size as int,
        ),
        r is Err && rows > 0 && cols > 0 ==> r->Err_0 is IncompatibleDimensions,
        r matches Ok(image) ==> mview(&image) == merge_all(
            filled(rows as int, cols as int, fill),
            block_views(blocks),
            block_size as int,
        ),
{
    if rows == 0 || cols == 0 {
        return Err(MatrixError::EmptyMatrix);
    }
    let ghost start = filled(rows as int, cols as int, fill);
    let ghost bs = block_views(blocks);
    let mut image: Vec<Vec<T>> = Vec::new();
    let mut i: usize = 0;
    while i < rows
        invariant
            i <= rows,
            image@.len() == i,
            forall|x: int| 0 <= x < i ==> #[trigger] image@[x]@ == Seq::new(cols as nat, |j: int| fill),
        decreases rows - i,
    {
        let mut row: Vec<T> = Vec::new();
        let mut j: usize = 0;
        while j < cols
            invariant
                j <= cols,
                row@ == Seq::new(j as nat, |y: int| fill),
            decreases cols - j,
        {
            row.push(fill);
            j = j + 1;
            assert(row@ =~= Seq::new(j as nat, |y: int| fill));
        }
        image.push(row);
        i = i + 1;
    }
    assert(mview(&image) =~= start);
    assert(bs.take(0) =~= Seq::<Seq<Seq<T>>>::empty());
    let mut k: usize = 0;
    while k < blocks.len()
        invariant
            bs == block_views(blocks),
            start == filled(rows as int, cols as int, fill),
            rows > 0,
            cols > 0,
            k <= blocks@.len(),
            mview(&image) == merge_all(start, bs.take(k as int), block_size as int),
            forall|x: int| 0 <= x < k ==> merge_fits(
                #[trigger] merge_all(start, bs.take(x), block_size as int), bs[x], x, block_size as int),
        decreases blocks@.len() - k,
    {
        let ghost before = mview(&image);
        assert(has_shape(start, rows as int, cols as int));
        proof { lemma_merge_all_keeps_rows(start, bs.take(k as int), block_size as int); }
        match merge_blocks(&mut image, &blocks[k], k, block_size) {
            Ok(()) => {},
            Err(e) => {
                return Err(e);
            },
        }
        assert(bs.take(k + 1).drop_last() =~= bs.take(k as int));
        k = k + 1;
    }
    assert(bs.take(k as int) =~= bs);
    Ok(image)
}

/// Merging never changes the number of rows, nor empties the first row.
proof fn lemma_merge_all_keeps_rows<T>(t: Seq<Seq<T>>, bs: Seq<Seq<Seq<T>>>, n: int)
    requires
        t.len() > 0,
        t[0].len() > 0,
    ensures
        merge_all(t, bs, n).len() == t.len(),
        merge_all(t, bs, n)[0].len() == t[0].len(),
    decreases bs.len(),
{
    if bs.len() > 0 {
        lemma_merge_all_keeps_rows(t, bs.drop_last(), n);
    }
}

/// The declared size of the images a processor accepts.
pub struct CompressionOptions {
    pub width: usize,
    pub height: usize,
}

impl CompressionOptions {
    pub fn new(width: usize, height: usize) -> (r: CompressionOptions)
        ensures
            r.width == width,
            r.height == height,
    {
        CompressionOptions { width, height }
    }
}

/// Compresses images of the size its options declare.
pub struct ImageProcessor {
    pub options: CompressionOptions,
}

impl ImageProcessor {
    pub fn new(options: CompressionOptions) -> (r: ImageProcessor)
        ensures
            r.options == options,
    {
        ImageProcessor { options }
    }

    /// Fails with `DimensionMismatch` unless `image` has as many rows as the
    /// declared height and a first row as long as the declared width (a
    /// matrix with no rows counts as 0 wide).
    pub fn validate_dimensions<T>(&self, image: &Vec<Vec<T>>) -> (r: Result<(), MatrixError>)
        ensures
            r is Ok <==> image@.len() == self.options.height && first_row_len(mview(image)) == self.options.width,
            r is Err ==> r->Err_0 is DimensionMismatch,
    {
        let actual_height = image.len();
        let actual_width = if image.len() == 0 { 0 } else { image[0].len() };
        if actual_height != self.options.height || actual_width != self.options.width {
            return Err(MatrixError::DimensionMismatch);
        }
        Ok(())
    }
}

} // verus!
