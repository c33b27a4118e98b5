//! Rendered rows as workers hand them over, and what it takes to turn a
//! pile of them into an image.
//!
//! Workers finish in no particular order. A pile of rows stands for an image
//! when it holds every row of the image exactly once and every row has the
//! image's width; the image is then the rows' pixels in the order of the row
//! indices, whatever order the pile is in.

use crate::image::RenderColor;
use vstd::prelude::*;

verus! {

/// One finished row of the image.
#[derive(Debug)]
pub struct RenderRowResult {
    pub row_index: u32,
    pub pixels: Vec<RenderColor>,
}

/// What a `RenderRowResult` holds, as plain mathematical values.
pub struct RowView {
    pub row_index: nat,
    pub pixels: Seq<RenderColor>,
}

impl View for RenderRowResult {
    type V = RowView;

    open spec fn view(&self) -> RowView {
        RowView { row_index: self.row_index as nat, pixels: self.pixels@ }
    }
}

impl RenderRowResult {
    pub fn new(row_index: u32, pixels: Vec<RenderColor>) -> (row: Self)
        ensures
            row.row_index == row_index,
            row.pixels == pixels,
    {
        RenderRowResult { row_index, pixels }
    }
}

/// The views of a sequence of rows.
pub open spec fn rows_view(rows: Seq<RenderRowResult>) -> Seq<RowView> {
    rows.map_values(|row: RenderRowResult| row@)
}

/// Whether some row of `rows` has index `row_index`.
pub open spec fn has_row(rows: Seq<RowView>, row_index: nat) -> bool {
    exists|i: int| 0 <= i < rows.len() && (#[trigger] rows[i]).row_index == row_index
}

/// The pixels of the row of `rows` with index `row_index`.
pub open spec fn row_pixels(rows: Seq<RowView>, row_index: nat) -> Seq<RenderColor>
    recommends
        has_row(rows, row_index),
{
    let i = choose|i: int| 0 <= i < rows.len() && (#[trigger] rows[i]).row_index == row_index;
    rows[i].pixels
}

/// Every row belongs to an image of the given size, and no row index occurs
/// twice.
pub open spec fn rows_valid(rows: Seq<RowView>, width: nat, height: nat) -> bool {
    &&& forall|i: int|
        0 <= i < rows.len() ==> (#[trigger] rows[i]).row_index < height && rows[i].pixels.len()
            == width
    &&& forall|i: int, j: int|
        0 <= i < j < rows.len() ==> (#[trigger] rows[i]).row_index != (#[trigger] rows[j]).row_index
}

/// The rows are valid and every row of the image is among them.
pub open spec fn rows_complete(rows: Seq<RowView>, width: nat, height: nat) -> bool {
    &&& rows_valid(rows, width, height)
    &&& rows.len() == height
}

/// The image that a pile of rows stands for: the pixels of row 0, then
/// those of row 1, and so on to the last row.
pub open spec fn image_pixels(rows: Seq<RowView>, height: nat) -> Seq<RenderColor> {
    Seq::new(height, |row_index: int| row_pixels(rows, row_index as nat)).flatten()
}

/// The row indices are in ascending order.
pub open spec fn rows_sorted(rows: Seq<RowView>) -> bool {
    forall|i: int, j: int|
        0 <= i < j < rows.len() ==> (#[trigger] rows[i]).row_index <= (#[trigger] rows[j]).row_index
}

/// The row indices of `rows`, in the same order.
pub open spec fn row_indices(rows: Seq<RowView>) -> Seq<int> {
    rows.map_values(|row: RowView| row.row_index as int)
}

/// Valid rows are no more than the image has, and when they are as many,
/// every row of the image is among them.
pub proof fn lemma_valid_rows_count(rows: Seq<RowView>, width: nat, height: nat)
    requires
        rows_valid(rows, width, height),
    ensures
        rows.len() <= height,
        rows.len() == height ==> forall|row_index: nat|
            row_index < height ==> has_row(rows, row_index),
{
    let indices = row_indices(rows);
    assert(indices.no_duplicates()) by {
        assert forall|i: int, j: int|
            0 <= i < indices.len() && 0 <= j < indices.len() && i != j implies indices[i]
            != indices[j] by {
            if i < j {
                assert(rows[i].row_index != rows[j].row_index);
            } else {
                assert(rows[j].row_index != rows[i].row_index);
            }
        }
    }
    indices.unique_seq_to_set();
    let all = vstd::set_lib::set_int_range(0, height as int);
    vstd::set_lib::lemma_int_range(0, height as int);
    assert(indices.to_set().subset_of(all)) by {
        assert forall|x: int| indices.to_set().contains(x) implies all.contains(x) by {
            let i = choose|i: int| 0 <= i < indices.len() && indices[i] == x;
            assert(rows[i].row_index < height);
        }
    }
    vstd::set_lib::lemma_len_subset(indices.to_set(), all);
    if rows.len() == height {
        vstd::set_lib::lemma_subset_equality(indices.to_set(), all);
        assert forall|row_index: nat| row_index < height implies has_row(rows, row_index) by {
            assert(all.contains(row_index as int));
            assert(indices.to_set().contains(row_index as int));
            let i = choose|i: int| 0 <= i < indices.len() && indices[i] == row_index as int;
            assert(rows[i].row_index == row_index);
        }
    }
}

/// In a pile without repeated indices, a row is found by its index alone.
pub proof fn lemma_row_pixels_at(rows: Seq<RowView>, width: nat, height: nat, i: int)
    requires
        rows_valid(rows, width, height),
        0 <= i < rows.len(),
    ensures
        has_row(rows, rows[i].row_index),
        row_pixels(rows, rows[i].row_index) == rows[i].pixels,
{
    let target = rows[i].row_index;
    let j = choose|j: int| 0 <= j < rows.len() && (#[trigger] rows[j]).row_index == target;
    if i < j {
        assert(rows[i].row_index != rows[j].row_index);
    }
    if j < i {
        assert(rows[j].row_index != rows[i].row_index);
    }
}

/// Complete rows in ascending order are in their places: the row at
/// position `i` is row `i`.
pub proof fn lemma_sorted_complete_rows_in_place(rows: Seq<RowView>, width: nat, height: nat)
    requires
        rows_complete(rows, width, height),
        rows_sorted(rows),
    ensures
        forall|i: int| 0 <= i < rows.len() ==> (#[trigger] rows[i]).row_index == i,
{
    assert forall|i: int| 0 <= i < rows.len() implies (#[trigger] rows[i]).row_index == i by {
        lemma_at_least_position(rows, i);
        lemma_at_most_position(rows, height, i);
    }
}

/// Distinct ascending indices grow by at least one per position.
proof fn lemma_at_least_position(rows: Seq<RowView>, i: int)
    requires
        rows_sorted(rows),
        forall|a: int, b: int|
            0 <= a < b < rows.len() ==> (#[trigger] rows[a]).row_index != (#[trigger] rows[b]).row_index,
        0 <= i < rows.len(),
    ensures
        rows[i].row_index >= i,
    decreases i,
{
    if i > 0 {
        lemma_at_least_position(rows, i - 1);
        assert(rows[i - 1].row_index <= rows[i].row_index);
        assert(rows[i - 1].row_index != rows[i].row_index);
    }
}

/// Distinct ascending indices below `height` leave room for those that
/// follow.
proof fn lemma_at_most_position(rows: Seq<RowView>, height: nat, i: int)
    requires
        rows_sorted(rows),
        forall|a: int, b: int|
            0 <= a < b < rows.len() ==> (#[trigger] rows[a]).row_index != (#[trigger] rows[b]).row_index,
        forall|a: int| 0 <= a < rows.len() ==> (#[trigger] rows[a]).row_index < height,
        0 <= i < rows.len(),
    ensures
        rows[i].row_index + (rows.len() - i) <= height,
    decreases rows.len() - i,
{
    if i + 1 < rows.len() {
        lemma_at_most_position(rows, height, i + 1);
        assert(rows[i].row_index <= rows[i + 1].row_index);
        assert(rows[i].row_index != rows[i + 1].row_index);
    }
}

/// Rows that are valid stay valid in any other order.
pub proof fn lemma_valid_in_any_order(a: Seq<RowView>, b: Seq<RowView>, width: nat, height: nat)
    requires
        rows_valid(a, width, height),
        a.to_multiset() == b.to_multiset(),
    ensures
        rows_valid(b, width, height),
        b.len() == a.len(),
{
    broadcast use vstd::seq_lib::group_to_multiset_ensures;

    assert(a.no_duplicates()) by {
        assert forall|i: int, j: int| 0 <= i < a.len() && 0 <= j < a.len() && i != j implies a[i]
            != a[j] by {
            if i < j {
                assert(a[i].row_index != a[j].row_index);
            } else {
                assert(a[j].row_index != a[i].row_index);
            }
        }
    }
    a.lemma_multiset_has_no_duplicates();
    b.lemma_multiset_has_no_duplicates_conv();
    vstd::seq_lib::to_multiset_len(a);
    vstd::seq_lib::to_multiset_len(b);
    assert forall|i: int| 0 <= i < b.len() implies (#[trigger] b[i]).row_index < height
        && b[i].pixels.len() == width by {
        assert(b.contains(b[i]));
        assert(b.to_multiset().count(b[i]) > 0);
        assert(a.contains(b[i]));
        let k = choose|k: int| 0 <= k < a.len() && a[k] == b[i];
        assert(a[k].row_index < height);
    }
    assert forall|i: int, j: int| 0 <= i < j < b.len() implies (#[trigger] b[i]).row_index != (
    #[trigger] b[j]).row_index by {
        assert(b.contains(b[i]));
        assert(b.contains(b[j]));
        assert(b.to_multiset().count(b[i]) > 0);
        assert(b.to_multiset().count(b[j]) > 0);
        assert(a.contains(b[i]));
        assert(a.contains(b[j]));
        let k = choose|k: int| 0 <= k < a.len() && a[k] == b[i];
        let l = choose|l: int| 0 <= l < a.len() && a[l] == b[j];
        assert(b[i] != b[j]);
        if k < l {
            assert(a[k].row_index != a[l].row_index);
        } else if l < k {
            assert(a[l].row_index != a[k].row_index);
        }
    }
}

/// Two piles with the same rows hold a row of a given index together or not
/// at all.
proof fn lemma_same_rows_same_members(a: Seq<RowView>, b: Seq<RowView>, row_index: nat)
    requires
        a.to_multiset() == b.to_multiset(),
        has_row(a, row_index),
    ensures
        has_row(b, row_index),
        exists|i: int, j: int|
            0 <= i < a.len() && 0 <= j < b.len() && a[i] == b[j] && (#[trigger] a[i]).row_index
                == row_index && (#[trigger] b[j]).row_index == row_index,
{
    broadcast use vstd::seq_lib::group_to_multiset_ensures;

    let i = choose|i: int| 0 <= i < a.len() && (#[trigger] a[i]).row_index == row_index;
    assert(a.contains(a[i]));
    assert(a.to_multiset().count(a[i]) > 0);
    assert(b.to_multiset().count(a[i]) > 0);
    assert(b.contains(a[i]));
    let j = choose|j: int| 0 <= j < b.len() && b[j] == a[i];
    assert(b[j].row_index == row_index);
}

/// The image that a pile of rows stands for does not depend on the order of
/// the pile: two complete piles with the same rows, in whatever order each,
/// stand for the same image.
pub proof fn lemma_image_independent_of_order(
    a: Seq<RowView>,
    b: Seq<RowView>,
    width: nat,
    height: nat,
)
    requires
        rows_complete(a, width, height),
        rows_complete(b, width, height),
        a.to_multiset() == b.to_multiset(),
    ensures
        image_pixels(a, height) == image_pixels(b, height),
{
    lemma_valid_rows_count(a, width, height);
    let rows_a = Seq::new(height, |row_index: int| row_pixels(a, row_index as nat));
    let rows_b = Seq::new(height, |row_index: int| row_pixels(b, row_index as nat));
    assert forall|r: int| 0 <= r < height implies rows_a[r] == rows_b[r] by {
        assert(has_row(a, r as nat));
        lemma_same_rows_same_members(a, b, r as nat);
        let (i, j) = choose|i: int, j: int|
            0 <= i < a.len() && 0 <= j < b.len() && a[i] == b[j] && (#[trigger] a[i]).row_index
                == r as nat && (#[trigger] b[j]).row_index == r as nat;
        lemma_row_pixels_at(a, width, height, i);
        lemma_row_pixels_at(b, width, height, j);
    }
    assert(rows_a =~= rows_b);
}

/// The image of complete rows has `width * height` pixels, and the pixel
/// in column `col` of row `row` is pixel `col` of the row with that index.
pub proof fn lemma_image_pixel(rows: Seq<RowView>, width: nat, height: nat, row: nat, col: nat)
    requires
        rows_complete(rows, width, height),
        row < height,
        col < width,
    ensures
        image_pixels(rows, height).len() == width * height,
        row * width + col < width * height,
        image_pixels(rows, height)[(row * width + col) as int] == row_pixels(rows, row)[col as int],
{
    lemma_valid_rows_count(rows, width, height);
    let grid = Seq::new(height, |row_index: int| row_pixels(rows, row_index as nat));
    assert forall|r: int| 0 <= r < height implies (#[trigger] grid[r]).len() == width by {
        assert(has_row(rows, r as nat));
        let i = choose|i: int| 0 <= i < rows.len() && (#[trigger] rows[i]).row_index == r as nat;
        lemma_row_pixels_at(rows, width, height, i);
    }
    lemma_flatten_uniform(grid, width, height as int);
    assert(grid.take(height as int) =~= grid);
    lemma_flatten_uniform_index(grid, width, row as int, col as int);
}

/// The image of complete rows has `width * height` pixels.
pub proof fn lemma_image_size(rows: Seq<RowView>, width: nat, height: nat)
    requires
        rows_complete(rows, width, height),
    ensures
        image_pixels(rows, height).len() == width * height,
{
    lemma_valid_rows_count(rows, width, height);
    let grid = Seq::new(height, |row_index: int| row_pixels(rows, row_index as nat));
    assert forall|r: int| 0 <= r < height implies (#[trigger] grid[r]).len() == width by {
        assert(has_row(rows, r as nat));
        let i = choose|i: int| 0 <= i < rows.len() && (#[trigger] rows[i]).row_index == r as nat;
        lemma_row_pixels_at(rows, width, height, i);
    }
    lemma_flatten_uniform(grid, width, height as int);
    assert(grid.take(height as int) =~= grid);
}

/// Flattening the first `n` of equally long sequences gives `n` times
/// their length.
proof fn lemma_flatten_uniform(grid: Seq<Seq<RenderColor>>, width: nat, n: int)
    requires
        forall|r: int| 0 <= r < grid.len() ==> (#[trigger] grid[r]).len() == width,
        0 <= n <= grid.len(),
    ensures
        grid.take(n).flatten().len() == width * n,
    decreases n,
{
    if n == 0 {
        assert(grid.take(0) =~= Seq::<Seq<RenderColor>>::empty());
        assert(width * 0 == 0) by (nonlinear_arith);
    } else {
        lemma_flatten_uniform(grid, width, n - 1);
        assert(grid.take(n) =~= grid.take(n - 1).push(grid[n - 1]));
        grid.take(n - 1).lemma_flatten_push(grid[n - 1]);
        assert(width * n == width * (n - 1) + width) by (nonlinear_arith);
    }
}

/// Where an element of one of equally long sequences lands when they are
/// flattened.
proof fn lemma_flatten_uniform_index(grid: Seq<Seq<RenderColor>>, width: nat, row: int, col: int)
    requires
        forall|r: int| 0 <= r < grid.len() ==> (#[trigger] grid[r]).len() == width,
        0 <= row < grid.len(),
        0 <= col < width,
    ensures
        row * width + col < width * grid.len(),
        grid.flatten().len() == width * grid.len(),
        grid.flatten()[row * width + col] == grid[row][col],
    decreases grid.len() - row,
{
    let n = grid.len() as int;
    lemma_flatten_uniform(grid, width, n);
    assert(grid.take(n) =~= grid);
    lemma_flatten_uniform(grid, width, row);
    lemma_flatten_uniform(grid, width, row + 1);
    assert(row * width == width * row) by (nonlinear_arith);
    assert(width * (row + 1) == width * row + width) by (nonlinear_arith);
    assert(width * (row + 1) <= width * n) by (nonlinear_arith)
        requires
            row + 1 <= n,
    ;
    lemma_flatten_prefix(grid, row + 1);
    assert(grid.take(row + 1) =~= grid.take(row).push(grid[row]));
    grid.take(row).lemma_flatten_push(grid[row]);
    let before = grid.take(row).flatten();
    let upto = grid.take(row + 1).flatten();
    let at = row * width + col;
    assert(upto =~= before + grid[row]);
    assert(before.len() == width * row);
    assert(upto.len() == width * row + width);
    assert(upto[at] == grid[row][col]);
    assert(upto == grid.flatten().take(upto.len() as int));
    assert(grid.flatten().take(upto.len() as int)[at] == grid.flatten()[at]);
}

/// Flattening a prefix gives a prefix of the flattening.
proof fn lemma_flatten_prefix(grid: Seq<Seq<RenderColor>>, n: int)
    requires
        0 <= n <= grid.len(),
    ensures
        grid.take(n).flatten().len() <= grid.flatten().len(),
        grid.take(n).flatten() == grid.flatten().take(grid.take(n).flatten().len() as int),
    decreases grid.len() - n,
{
    if n == grid.len() {
        assert(grid.take(n) =~= grid);
        assert(grid.flatten().take(grid.flatten().len() as int) =~= grid.flatten());
    } else {
        lemma_flatten_prefix(grid, n + 1);
        assert(grid.take(n + 1) =~= grid.take(n).push(grid[n]));
        grid.take(n).lemma_flatten_push(grid[n]);
        let shorter = grid.take(n).flatten();
        let longer = grid.take(n + 1).flatten();
        assert(shorter =~= longer.take(shorter.len() as int));
        assert(longer.take(shorter.len() as int) =~= grid.flatten().take(shorter.len() as int));
    }
}

} // verus!
