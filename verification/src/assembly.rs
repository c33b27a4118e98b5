//! From the division of rows to the finished image.
//!
//! The division hands every worker a block; every worker renders the rows
//! that stand at the places of its block in an order of the rows, and hands
//! them over; the coordinator takes the rows as they come and joins them by
//! row index. The laws here tie the three together: what the workers of a
//! division hand over is every row of the image exactly once, and the image
//! that the coordinator makes of it holds, for every row, the pixels that
//! its worker rendered for it, whatever order the rows arrived in.

use crate::image::RenderColor;
use crate::rows::{
    image_pixels, lemma_image_independent_of_order, lemma_row_pixels_at,
    lemma_valid_in_any_order, row_pixels, rows_complete, RowView,
};
use crate::schedule::{
    all_rows, block_rows_in, is_row_order, lemma_block_bounds, lemma_ceil_div_bounds,
    lemma_row_order_places, partition, rows_per_thread, ThreadInfo,
};
use crate::worker::rows_as_dealt;
use vstd::prelude::*;

verus! {

/// Every worker has rendered its whole block, each row as wide as the
/// image: `grids[k]` holds what worker `k` rendered, first row first.
pub open spec fn blocks_rendered(
    infos: Seq<ThreadInfo>,
    grids: Seq<Seq<Seq<RenderColor>>>,
    width: nat,
) -> bool {
    &&& grids.len() == infos.len()
    &&& forall|k: int| 0 <= k < infos.len() ==> (#[trigger] grids[k]).len() == infos[k].row_count
    &&& forall|k: int, r: int|
        0 <= k < grids.len() && 0 <= r < grids[k].len() ==> (#[trigger] grids[k][r]).len() == width
}

/// The rows that the workers hand over, worker after worker in the order of
/// the blocks, when every worker renders the rows at the places of its
/// block in `order`.
pub open spec fn delivered(
    infos: Seq<ThreadInfo>,
    order: Seq<u32>,
    grids: Seq<Seq<Seq<RenderColor>>>,
) -> Seq<RowView>
    decreases infos.len(),
{
    if infos.len() == 0 {
        Seq::empty()
    } else {
        delivered(infos.drop_last(), order, grids.drop_last()) + rows_as_dealt(
            block_rows_in(infos.last(), order),
            grids.last(),
        )
    }
}

/// The pixels of a sequence of rows, row by row.
pub open spec fn pixels_of(rows: Seq<RowView>) -> Seq<Seq<RenderColor>> {
    rows.map_values(|row: RowView| row.pixels)
}

/// The workers of the first `n` blocks of a division hand over the rows at
/// the places before block `n`, place by place.
proof fn lemma_delivered_prefix(
    image_height: nat,
    thread_count: nat,
    order: Seq<u32>,
    grids: Seq<Seq<Seq<RenderColor>>>,
    width: nat,
    n: int,
)
    requires
        thread_count >= 1,
        image_height <= u32::MAX,
        order.len() == image_height,
        blocks_rendered(partition(image_height, thread_count), grids, width),
        0 <= n <= partition(image_height, thread_count).len(),
    ensures
        ({
            let p = partition(image_height, thread_count);
            let d = delivered(p.take(n), order, grids.take(n));
            &&& d.len() == if n == 0 {
                0
            } else {
                p[n - 1].end_row + 1
            }
            &&& d.len() <= image_height
            &&& forall|place: int|
                0 <= place < d.len() ==> (#[trigger] d[place]).row_index == order[place]
                    && d[place].pixels.len() == width
            &&& pixels_of(d) == grids.take(n).flatten()
        }),
    decreases n,
{
    let p = partition(image_height, thread_count);
    let d = delivered(p.take(n), order, grids.take(n));
    if n == 0 {
        assert(pixels_of(d) =~= grids.take(0).flatten());
    } else {
        lemma_delivered_prefix(image_height, thread_count, order, grids, width, n - 1);
        lemma_block_bounds(image_height, thread_count, n - 1);
        if n - 1 > 0 {
            lemma_block_bounds(image_height, thread_count, n - 2);
        }
        let before = delivered(p.take(n - 1), order, grids.take(n - 1));
        let block = rows_as_dealt(block_rows_in(p[n - 1], order), grids[n - 1]);
        assert(p.take(n).drop_last() =~= p.take(n - 1));
        assert(grids.take(n).drop_last() =~= grids.take(n - 1));
        assert(p.take(n).last() == p[n - 1]);
        assert(grids.take(n).last() == grids[n - 1]);
        assert(d == before + block);
        assert(before.len() == p[n - 1].start_row);
        assert forall|place: int| 0 <= place < d.len() implies (#[trigger] d[place]).row_index
            == order[place] && d[place].pixels.len() == width by {
            if place >= before.len() {
                assert(d[place] == block[place - before.len()]);
                assert(grids[n - 1][place - before.len()].len() == width);
            } else {
                assert(d[place] == before[place]);
            }
        }
        assert(pixels_of(block) =~= grids[n - 1]);
        assert(pixels_of(d) =~= pixels_of(before) + pixels_of(block));
        assert(grids.take(n) =~= grids.take(n - 1).push(grids[n - 1]));
        grids.take(n - 1).lemma_flatten_push(grids[n - 1]);
    }
}

/// What the workers of a division hand over is every row of the image
/// exactly once: as many rows as the image has, no index twice, none
/// outside the image, and each as wide as the image. The row at place `s`
/// of the order comes `s`-th, with the `s`-th of the rendered rows.
pub proof fn lemma_workers_deliver_every_row_once(
    image_height: nat,
    thread_count: nat,
    order: Seq<u32>,
    grids: Seq<Seq<Seq<RenderColor>>>,
    width: nat,
)
    requires
        thread_count >= 1,
        image_height <= u32::MAX,
        is_row_order(order, image_height),
        blocks_rendered(partition(image_height, thread_count), grids, width),
    ensures
        rows_complete(
            delivered(partition(image_height, thread_count), order, grids),
            width,
            image_height,
        ),
        forall|place: int|
            0 <= place < image_height ==> (#[trigger] delivered(
                partition(image_height, thread_count),
                order,
                grids,
            )[place]).row_index == order[place],
        pixels_of(delivered(partition(image_height, thread_count), order, grids))
            == grids.flatten(),
{
    let p = partition(image_height, thread_count);
    let n = p.len() as int;
    lemma_row_order_places(order, image_height);
    lemma_delivered_prefix(image_height, thread_count, order, grids, width, n);
    assert(p.take(n) =~= p);
    assert(grids.take(n) =~= grids);
    if n > 0 {
        lemma_block_bounds(image_height, thread_count, n - 1);
    } else {
        if image_height > 0 {
            lemma_ceil_div_bounds(image_height, thread_count);
            lemma_ceil_div_bounds(image_height, rows_per_thread(image_height, thread_count));
        }
    }
    let d = delivered(p, order, grids);
    assert forall|i: int, j: int| 0 <= i < j < d.len() implies (#[trigger] d[i]).row_index != (
    #[trigger] d[j]).row_index by {
        assert(order[i] != order[j]);
    }
}

/// The finished image does not depend on the order in which rows arrive:
/// whatever order the rows of a division's workers come in, they are every
/// row of the image exactly once, and the image made of them holds, for the
/// row at every place of the order, what was rendered for that place. With
/// the rows in ascending order the image is the workers' rows in the order
/// of the blocks, pixel for pixel.
pub proof fn lemma_image_is_deterministic(
    image_height: nat,
    thread_count: nat,
    order: Seq<u32>,
    grids: Seq<Seq<Seq<RenderColor>>>,
    width: nat,
    arrived: Seq<RowView>,
)
    requires
        thread_count >= 1,
        image_height <= u32::MAX,
        is_row_order(order, image_height),
        blocks_rendered(partition(image_height, thread_count), grids, width),
        arrived.to_multiset() == delivered(
            partition(image_height, thread_count),
            order,
            grids,
        ).to_multiset(),
    ensures
        rows_complete(arrived, width, image_height),
        grids.flatten().len() == image_height,
        forall|place: int|
            0 <= place < image_height ==> row_pixels(arrived, #[trigger] order[place] as nat)
                == grids.flatten()[place],
        order == all_rows(image_height) ==> image_pixels(arrived, image_height)
            == grids.flatten().flatten(),
{
    let d = delivered(partition(image_height, thread_count), order, grids);
    lemma_workers_deliver_every_row_once(image_height, thread_count, order, grids, width);
    lemma_valid_in_any_order(d, arrived, width, image_height);
    lemma_image_independent_of_order(d, arrived, width, image_height);
    assert(pixels_of(d).len() == d.len());
    assert forall|place: int| 0 <= place < image_height implies row_pixels(
        arrived,
        #[trigger] order[place] as nat,
    ) == grids.flatten()[place] by {
        lemma_row_pixels_at(d, width, image_height, place);
        assert(pixels_of(d)[place] == d[place].pixels);
        lemma_same_row_in_any_order(d, arrived, width, image_height, order[place] as nat);
    }
    if order == all_rows(image_height) {
        let by_index = Seq::new(image_height, |r: int| row_pixels(d, r as nat));
        assert forall|r: int| 0 <= r < image_height implies by_index[r] == pixels_of(d)[r] by {
            lemma_row_pixels_at(d, width, image_height, r);
        }
        assert(by_index =~= pixels_of(d));
    }
}

/// Two complete piles of the same rows hold the same pixels for every row.
proof fn lemma_same_row_in_any_order(
    a: Seq<RowView>,
    b: Seq<RowView>,
    width: nat,
    height: nat,
    row_index: nat,
)
    requires
        rows_complete(a, width, height),
        rows_complete(b, width, height),
        a.to_multiset() == b.to_multiset(),
        row_index < height,
    ensures
        row_pixels(a, row_index) == row_pixels(b, row_index),
{
    broadcast use vstd::seq_lib::group_to_multiset_ensures;

    crate::rows::lemma_valid_rows_count(a, width, height);
    assert(crate::rows::has_row(a, row_index));
    let i = choose|i: int| 0 <= i < a.len() && (#[trigger] a[i]).row_index == row_index;
    lemma_row_pixels_at(a, width, height, i);
    assert(a.contains(a[i]));
    assert(a.to_multiset().count(a[i]) > 0);
    assert(b.contains(a[i]));
    let j = choose|j: int| 0 <= j < b.len() && b[j] == a[i];
    lemma_row_pixels_at(b, width, height, j);
}

} // verus!
