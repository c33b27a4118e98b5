//! Division of the image's rows among the render workers.
//!
//! Rows are handed out in contiguous blocks of equal size (the last block
//! may be shorter), one block per worker, in ascending order. The laws
//! state that such a division assigns every row of the image to exactly one
//! worker.
//!
//! Rows that lie together tend to cost alike. To even out the load, the
//! blocks can be read as places in a shuffled order of the rows instead of
//! as rows: every worker then renders the rows that stand at its places.

use rand::seq::SliceRandom;
use rand::SeedableRng;
use vstd::prelude::*;

verus! {

/// The block of rows given to one worker: rows `start_row` to `end_row`,
/// both included.
#[derive(Debug, Clone, Copy, PartialEq, Eq, Structural)]
pub struct ThreadInfo {
    pub row_count: u32,
    pub start_row: u32,
    pub end_row: u32,
    pub thread_idx: u32,
}

impl ThreadInfo {
    /// The block is not empty and its row count agrees with its bounds.
    pub open spec fn wf(self) -> bool {
        &&& self.start_row <= self.end_row
        &&& self.row_count == self.end_row - self.start_row + 1
    }

    /// Whether `row` is one of the block's rows.
    pub open spec fn owns(self, row: int) -> bool {
        self.start_row <= row <= self.end_row
    }

    /// The block's rows as a set.
    pub open spec fn rows(self) -> Set<int> {
        Set::new(|row: int| self.owns(row))
    }

    /// Decides `wf`.
    pub fn is_wf(&self) -> (ok: bool)
        ensures
            ok == self.wf(),
    {
        self.start_row <= self.end_row && self.row_count >= 1 && self.row_count - 1
            == self.end_row - self.start_row
    }
}

/// `a / b`, rounded up.
pub open spec fn ceil_div(a: nat, b: nat) -> nat
    recommends
        b > 0,
{
    ((a + b - 1) / (b as int)) as nat
}

/// The number of rows in every block but possibly the last.
pub open spec fn rows_per_thread(image_height: nat, thread_count: nat) -> nat
    recommends
        thread_count > 0,
{
    ceil_div(image_height, thread_count)
}

/// The number of blocks, which is the number of workers that get any row.
pub open spec fn block_count(image_height: nat, thread_count: nat) -> nat
    recommends
        thread_count > 0,
{
    if image_height == 0 {
        0
    } else {
        ceil_div(image_height, rows_per_thread(image_height, thread_count))
    }
}

/// The `k`-th block of the division.
pub open spec fn block(image_height: nat, thread_count: nat, k: int) -> ThreadInfo
    recommends
        thread_count > 0,
        0 <= k < block_count(image_height, thread_count),
{
    let size = rows_per_thread(image_height, thread_count);
    let start = k * size;
    let stop = if start + size < image_height {
        start + size
    } else {
        image_height as int
    };
    ThreadInfo {
        row_count: (stop - start) as u32,
        start_row: start as u32,
        end_row: (stop - 1) as u32,
        thread_idx: k as u32,
    }
}

/// The division of `image_height` rows among `thread_count` workers.
pub open spec fn partition(image_height: nat, thread_count: nat) -> Seq<ThreadInfo>
    recommends
        thread_count > 0,
{
    Seq::new(
        block_count(image_height, thread_count),
        |k: int| block(image_height, thread_count, k),
    )
}

/// `ceil_div(a, b)` is the least count of `b`-sized blocks that hold `a`.
pub proof fn lemma_ceil_div_bounds(a: nat, b: nat)
    requires
        b > 0,
    ensures
        a <= ceil_div(a, b) * b,
        a > 0 ==> (ceil_div(a, b) - 1) * b < a,
        a > 0 ==> ceil_div(a, b) >= 1,
        a == 0 ==> ceil_div(a, b) == 0,
        ceil_div(a, b) <= a,
{
    let x = a + b - 1;
    let q = x / (b as int);
    let r = x % (b as int);
    vstd::arithmetic::div_mod::lemma_fundamental_div_mod(x, b as int);
    vstd::arithmetic::div_mod::lemma_mod_bound(x, b as int);
    vstd::arithmetic::div_mod::lemma_div_pos_is_pos(x, b as int);
    assert(q * b == (b as int) * q) by (nonlinear_arith);
    assert((q - 1) * b == q * b - b) by (nonlinear_arith);
    if a == 0 {
        assert(q == 0) by (nonlinear_arith)
            requires
                q * b == b - 1 - r,
                0 <= r,
                b > 0,
                q >= 0,
        ;
    } else {
        assert(q >= 1) by (nonlinear_arith)
            requires
                q * b == a + b - 1 - r,
                r < b,
                a > 0,
                b > 0,
        ;
        assert(q <= a) by (nonlinear_arith)
            requires
                q * b == a + b - 1 - r,
                0 <= r,
                a > 0,
                b > 0,
                q >= 1,
        ;
    }
}

/// Whatever `k` blocks of size `size` hold, `k + 1` blocks hold more.
proof fn lemma_block_start(k: int, size: int)
    requires
        0 <= k,
        1 <= size,
    ensures
        k <= k * size,
        (k + 1) * size == k * size + size,
{
    assert(k <= k * size) by (nonlinear_arith)
        requires
            0 <= k,
            1 <= size,
    ;
    assert((k + 1) * size == k * size + size) by (nonlinear_arith);
}

/// Blocks that start below the image's height are blocks of the division.
proof fn lemma_block_index(image_height: nat, size: nat, k: int)
    requires
        size >= 1,
        image_height > 0,
        0 <= k,
    ensures
        k * size < image_height <==> k < ceil_div(image_height, size),
{
    lemma_ceil_div_bounds(image_height, size);
    let n = ceil_div(image_height, size) as int;
    if k < n {
        assert(k * size <= (n - 1) * size) by (nonlinear_arith)
            requires
                k <= n - 1,
                size >= 1,
        ;
    } else {
        assert(n * size <= k * size) by (nonlinear_arith)
            requires
                n <= k,
                size >= 1,
        ;
    }
}

/// Divides `image_height` rows among `thread_count` workers.
///
/// Every worker gets `ceil(image_height / thread_count)` consecutive rows,
/// but the last, which gets what is left; workers for which nothing is left
/// get no block at all. An image without rows yields no block.
pub fn partition_rows(image_height: u32, thread_count: usize) -> (infos: Vec<ThreadInfo>)
    requires
        thread_count >= 1,
    ensures
        infos@ == partition(image_height as nat, thread_count as nat),
{
    let mut infos: Vec<ThreadInfo> = Vec::new();
    if image_height == 0 {
        assert(infos@ =~= partition(image_height as nat, thread_count as nat));
        return infos;
    }
    let height: u64 = image_height as u64;
    let wide: u128 = (image_height as u128 + thread_count as u128 - 1) / (thread_count as u128);
    proof {
        lemma_ceil_div_bounds(image_height as nat, thread_count as nat);
    }
    let size: u64 = wide as u64;
    let mut start: u64 = 0;
    let mut idx: u32 = 0;
    while start < height
        invariant
            height == image_height,
            image_height > 0,
            thread_count >= 1,
            size == rows_per_thread(image_height as nat, thread_count as nat),
            1 <= size <= height,
            start == idx * size,
            idx <= block_count(image_height as nat, thread_count as nat),
            start < height + size,
            infos@ == Seq::new(
                idx as nat,
                |k: int| block(image_height as nat, thread_count as nat, k),
            ),
        decreases height + size - start,
    {
        proof {
            lemma_block_start(idx as int, size as int);
            lemma_block_index(image_height as nat, size as nat, idx as int);
            lemma_block_index(image_height as nat, size as nat, idx + 1);
        }
        let stop: u64 = if start + size < height {
            start + size
        } else {
            height
        };
        let info = ThreadInfo {
            row_count: (stop - start) as u32,
            start_row: start as u32,
            end_row: (stop - 1) as u32,
            thread_idx: idx,
        };
        assert(info == block(image_height as nat, thread_count as nat, idx as int));
        infos.push(info);
        start = start + size;
        idx = idx + 1;
        assert(infos@ =~= Seq::new(
            idx as nat,
            |k: int| block(image_height as nat, thread_count as nat, k),
        ));
    }
    proof {
        lemma_block_index(image_height as nat, size as nat, idx as int);
        assert(infos@ =~= partition(image_height as nat, thread_count as nat));
    }
    infos
}

/// Reads the number of logical processors with `num_cpus::get`.
///
/// Believed of it, on the word of its documentation: the count is at least
/// one. The count itself depends on the machine and on the limits placed on
/// the process, so nothing else is said of it.
#[verifier::external_body]
fn available_parallelism() -> (count: usize)
    ensures
        count >= 1,
{
    num_cpus::get()
}

/// Divides `image_height` rows among as many workers as the machine has
/// logical processors.
///
/// The number of processors is only known when the call is made, so the
/// result is the division for some positive number of workers.
pub fn get_threads_info(image_height: u32) -> (infos: Vec<ThreadInfo>)
    ensures
        exists|thread_count: nat|
            thread_count >= 1 && infos@ == #[trigger] partition(image_height as nat, thread_count),
{
    let thread_count = available_parallelism();
    partition_rows(image_height, thread_count)
}

/// The rows that some block of `infos` holds.
pub open spec fn assigned_rows(infos: Seq<ThreadInfo>) -> Set<int> {
    Set::new(|row: int| exists|k: int| 0 <= k < infos.len() && #[trigger] infos[k].owns(row))
}

/// The facts about one block of a division that the laws rest on.
pub proof fn lemma_block_bounds(image_height: nat, thread_count: nat, k: int)
    requires
        thread_count >= 1,
        image_height <= u32::MAX,
        0 <= k < block_count(image_height, thread_count),
    ensures
        ({
            let size = rows_per_thread(image_height, thread_count);
            let b = block(image_height, thread_count, k);
            &&& size >= 1
            &&& b.wf()
            &&& b.thread_idx == k
            &&& b.start_row == k * size
            &&& b.end_row < image_height
            &&& b.end_row + 1 == if k + 1 < block_count(image_height, thread_count) {
                (k + 1) * size
            } else {
                image_height as int
            }
        }),
{
    let size = rows_per_thread(image_height, thread_count);
    lemma_ceil_div_bounds(image_height, thread_count);
    lemma_block_start(k, size as int);
    lemma_block_index(image_height, size, k);
    lemma_block_index(image_height, size, k + 1);
    lemma_ceil_div_bounds(image_height, size);
    if k + 1 < block_count(image_height, thread_count) {
        lemma_block_start(k + 1, size as int);
        lemma_block_index(image_height, size, k + 2);
        let n = block_count(image_height, thread_count) as int;
        assert((k + 1) * size <= (n - 1) * size) by (nonlinear_arith)
            requires
                k + 1 <= n - 1,
                size >= 1,
        ;
    }
}

/// A division has no more blocks than there are workers, and none that is
/// empty: no more blocks than rows.
pub proof fn lemma_block_count_bounded(image_height: nat, thread_count: nat)
    requires
        thread_count >= 1,
    ensures
        block_count(image_height, thread_count) <= thread_count,
        block_count(image_height, thread_count) <= image_height,
        image_height > 0 ==> block_count(image_height, thread_count) >= 1,
{
    if image_height > 0 {
        let size = rows_per_thread(image_height, thread_count);
        let n = block_count(image_height, thread_count);
        lemma_ceil_div_bounds(image_height, thread_count);
        lemma_ceil_div_bounds(image_height, size);
        assert(n <= thread_count) by (nonlinear_arith)
            requires
                (n - 1) * size < image_height,
                image_height <= size * thread_count,
                size >= 1,
        ;
    }
}

/// No block of a division reaches outside the image, and no two blocks
/// share a row.
pub proof fn lemma_partition_blocks_disjoint(image_height: nat, thread_count: nat)
    requires
        thread_count >= 1,
        image_height <= u32::MAX,
    ensures
        forall|k: int, row: int|
            0 <= k < partition(image_height, thread_count).len() && #[trigger] partition(
                image_height,
                thread_count,
            )[k].owns(row) ==> 0 <= row < image_height,
        forall|j: int, k: int, row: int|
            0 <= j < partition(image_height, thread_count).len() && 0 <= k < partition(
                image_height,
                thread_count,
            ).len() && #[trigger] partition(image_height, thread_count)[j].owns(row)
                && #[trigger] partition(image_height, thread_count)[k].owns(row) ==> j == k,
{
    let p = partition(image_height, thread_count);
    let size = rows_per_thread(image_height, thread_count) as int;
    assert forall|k: int, row: int| 0 <= k < p.len() && #[trigger] p[k].owns(row) implies 0 <= row
        < image_height by {
        lemma_block_bounds(image_height, thread_count, k);
    }
    assert forall|j: int, k: int, row: int|
        0 <= j < p.len() && 0 <= k < p.len() && #[trigger] p[j].owns(row) && #[trigger] p[k].owns(
            row,
        ) implies j == k by {
        lemma_block_bounds(image_height, thread_count, j);
        lemma_block_bounds(image_height, thread_count, k);
        if j < k {
            assert((j + 1) * size <= k * size) by (nonlinear_arith)
                requires
                    j + 1 <= k,
                    size >= 1,
            ;
        }
        if k < j {
            assert((k + 1) * size <= j * size) by (nonlinear_arith)
                requires
                    k + 1 <= j,
                    size >= 1,
            ;
        }
    }
}

/// Every row of the image lies in the block whose index is the row divided
/// by the block size.
pub proof fn lemma_partition_owner(image_height: nat, thread_count: nat, row: int)
    requires
        thread_count >= 1,
        image_height <= u32::MAX,
        0 <= row < image_height,
    ensures
        ({
            let k = row / (rows_per_thread(image_height, thread_count) as int);
            &&& 0 <= k < partition(image_height, thread_count).len()
            &&& partition(image_height, thread_count)[k].owns(row)
        }),
{
    let size = rows_per_thread(image_height, thread_count) as int;
    lemma_ceil_div_bounds(image_height, thread_count);
    let k = row / size;
    vstd::arithmetic::div_mod::lemma_fundamental_div_mod(row, size);
    vstd::arithmetic::div_mod::lemma_mod_bound(row, size);
    vstd::arithmetic::div_mod::lemma_div_pos_is_pos(row, size);
    assert(k * size == size * k) by (nonlinear_arith);
    lemma_block_index(image_height, size as nat, k);
    lemma_block_bounds(image_height, thread_count, k);
    lemma_block_start(k, size);
}

/// The division of an image's rows leaves no gap and assigns no row twice:
/// the blocks' rows together are exactly the rows `0` to
/// `image_height - 1`, the blocks are pairwise disjoint, and their sizes
/// add up to the image's height.
pub proof fn lemma_partition_exact_cover(image_height: nat, thread_count: nat)
    requires
        thread_count >= 1,
        image_height <= u32::MAX,
    ensures
        assigned_rows(partition(image_height, thread_count)) == Set::new(
            |row: int| 0 <= row < image_height,
        ),
        forall|j: int, k: int|
            0 <= j < k < partition(image_height, thread_count).len() ==> (#[trigger] partition(
                image_height,
                thread_count,
            )[j]).rows().disjoint(#[trigger] partition(image_height, thread_count)[k].rows()),
        total_rows(partition(image_height, thread_count)) == image_height,
{
    let p = partition(image_height, thread_count);
    lemma_partition_blocks_disjoint(image_height, thread_count);
    assert forall|row: int| 0 <= row < image_height implies assigned_rows(p).contains(row) by {
        lemma_partition_owner(image_height, thread_count, row);
        let k = row / (rows_per_thread(image_height, thread_count) as int);
        assert(p[k].owns(row));
    }
    assert(assigned_rows(p) =~= Set::new(|row: int| 0 <= row < image_height));
    assert forall|j: int, k: int| 0 <= j < k < p.len() implies (#[trigger] p[j]).rows().disjoint(
        #[trigger] p[k].rows(),
    ) by {
        assert forall|row: int| !(p[j].rows().contains(row) && p[k].rows().contains(row)) by {
            if p[j].owns(row) && p[k].owns(row) {
                assert(j == k);
            }
        }
    }
    lemma_total_rows_prefix(image_height, thread_count, p.len() as int);
    assert(p.take(p.len() as int) =~= p);
    if p.len() > 0 {
        lemma_block_bounds(image_height, thread_count, p.len() - 1);
        assert(p[p.len() - 1].end_row + 1 == image_height);
        assert(total_rows(p.take(p.len() as int)) == image_height);
    } else {
        if image_height > 0 {
            lemma_ceil_div_bounds(image_height, thread_count);
            lemma_ceil_div_bounds(image_height, rows_per_thread(image_height, thread_count));
        }
    }
}

/// The sum of the blocks' row counts.
pub open spec fn total_rows(infos: Seq<ThreadInfo>) -> nat
    decreases infos.len(),
{
    if infos.len() == 0 {
        0
    } else {
        total_rows(infos.drop_last()) + infos.last().row_count as nat
    }
}

/// The first `n` blocks of a division hold the rows before the `n`-th
/// block's first row.
proof fn lemma_total_rows_prefix(image_height: nat, thread_count: nat, n: int)
    requires
        thread_count >= 1,
        image_height <= u32::MAX,
        0 <= n <= partition(image_height, thread_count).len(),
    ensures
        total_rows(partition(image_height, thread_count).take(n)) == if n == 0 {
            0
        } else {
            partition(image_height, thread_count)[n - 1].end_row + 1
        },
    decreases n,
{
    let p = partition(image_height, thread_count);
    if n > 0 {
        lemma_total_rows_prefix(image_height, thread_count, n - 1);
        lemma_block_bounds(image_height, thread_count, n - 1);
        assert(p.take(n).drop_last() =~= p.take(n - 1));
        assert(p.take(n).last() == p[n - 1]);
        if n - 1 > 0 {
            lemma_block_bounds(image_height, thread_count, n - 2);
        }
    }
}

/// The rows of an image, in ascending order.
pub open spec fn all_rows(image_height: nat) -> Seq<u32> {
    Seq::new(image_height, |row: int| row as u32)
}

/// Whether `order` is an order of the rows of the image: every row stands
/// in it once, and nothing else.
pub open spec fn is_row_order(order: Seq<u32>, image_height: nat) -> bool {
    order.to_multiset() == all_rows(image_height).to_multiset()
}

/// The rows of a block, in ascending order.
pub open spec fn block_rows(info: ThreadInfo) -> Seq<u32> {
    Seq::new(info.row_count as nat, |i: int| (info.start_row + i) as u32)
}

/// The rows that stand at the places of a block in an order of rows.
pub open spec fn block_rows_in(info: ThreadInfo, order: Seq<u32>) -> Seq<u32>
    recommends
        info.wf(),
        info.end_row < order.len(),
{
    order.subrange(info.start_row as int, info.end_row + 1)
}

/// The random number generator `rand::rngs::StdRng`, of which nothing is
/// looked into here.
#[verifier::external_type_specification]
#[verifier::external_body]
pub struct ExStdRng(rand::rngs::StdRng);

/// Makes a generator of `seed` with `rand::SeedableRng::seed_from_u64`.
/// Nothing is claimed of the generator.
#[verifier::external_body]
fn seeded_generator(seed: u64) -> (generator: rand::rngs::StdRng) {
    rand::rngs::StdRng::seed_from_u64(seed)
}

/// Shuffles `rows` with `rand::seq::SliceRandom::shuffle`.
///
/// Believed of it, on the evidence of its source: it does nothing but swap
/// elements, so that afterwards `rows` holds what it held before, each
/// element as often as before. Which order comes out is not said.
#[verifier::external_body]
fn shuffle_rows(rows: &mut Vec<u32>, generator: &mut rand::rngs::StdRng)
    ensures
        final(rows)@.to_multiset() == old(rows)@.to_multiset(),
{
    rows.shuffle(generator);
}

/// The rows of an image in a shuffled order, drawn from `seed`.
///
/// What is promised is that the order holds every row of the image once;
/// which order it is depends on the generator.
pub fn shuffled_rows(image_height: u32, seed: u64) -> (order: Vec<u32>)
    ensures
        is_row_order(order@, image_height as nat),
{
    let mut order: Vec<u32> = Vec::new();
    let mut row: u32 = 0;
    assert(order@ =~= all_rows(0));
    while row < image_height
        invariant
            row <= image_height,
            order@ == all_rows(row as nat),
        decreases image_height - row,
    {
        order.push(row);
        row = row + 1;
        assert(order@ =~= all_rows(row as nat));
    }
    let mut generator = seeded_generator(seed);
    shuffle_rows(&mut order, &mut generator);
    order
}

/// In an order of the rows of an image every row has exactly one place:
/// the order is as long as the image is high, holds rows of the image only,
/// holds none twice and leaves none out.
pub proof fn lemma_row_order_places(order: Seq<u32>, image_height: nat)
    requires
        is_row_order(order, image_height),
        image_height <= u32::MAX,
    ensures
        order.len() == image_height,
        order.no_duplicates(),
        forall|place: int| 0 <= place < order.len() ==> (#[trigger] order[place]) < image_height,
        forall|row: u32| row < image_height ==> order.contains(row),
{
    broadcast use vstd::seq_lib::group_to_multiset_ensures;

    let all = all_rows(image_height);
    vstd::seq_lib::to_multiset_len(order);
    vstd::seq_lib::to_multiset_len(all);
    assert(all.no_duplicates());
    all.lemma_multiset_has_no_duplicates();
    order.lemma_multiset_has_no_duplicates_conv();
    assert forall|place: int| 0 <= place < order.len() implies (#[trigger] order[place])
        < image_height by {
        assert(order.contains(order[place]));
        assert(order.to_multiset().count(order[place]) > 0);
        assert(all.contains(order[place]));
        let r = choose|r: int| 0 <= r < all.len() && all[r] == order[place];
    }
    assert forall|row: u32| row < image_height implies order.contains(row) by {
        assert(all[row as int] == row);
        assert(all.contains(row));
        assert(all.to_multiset().count(row) > 0);
    }
}

/// The ascending order is an order of the rows, and the rows at the places
/// of a block in it are the rows of the block.
pub proof fn lemma_ascending_order(image_height: nat)
    ensures
        is_row_order(all_rows(image_height), image_height),
        forall|info: ThreadInfo|
            info.wf() && info.end_row < image_height ==> #[trigger] block_rows_in(
                info,
                all_rows(image_height),
            ) == block_rows(info),
{
    assert forall|info: ThreadInfo| info.wf() && info.end_row < image_height implies #[trigger] block_rows_in(
        info,
        all_rows(image_height),
    ) == block_rows(info) by {
        assert(block_rows_in(info, all_rows(image_height)) =~= block_rows(info));
    }
}

/// Whether `row` stands at one of the places of the block in `order`.
pub open spec fn stands_in(info: ThreadInfo, order: Seq<u32>, row: u32) -> bool {
    block_rows_in(info, order).contains(row)
}

/// Whether `row` stands at the places of some block of `infos` in `order`.
pub open spec fn is_assigned(infos: Seq<ThreadInfo>, order: Seq<u32>, row: u32) -> bool {
    exists|k: int| 0 <= k < infos.len() && stands_in(#[trigger] infos[k], order, row)
}

/// Read as places in an order of the rows, a division still assigns every
/// row of the image to exactly one worker: every row stands at the places
/// of some block, and no row at the places of two.
pub proof fn lemma_shuffled_partition_exact_cover(
    image_height: nat,
    thread_count: nat,
    order: Seq<u32>,
)
    requires
        thread_count >= 1,
        image_height <= u32::MAX,
        is_row_order(order, image_height),
    ensures
        forall|row: u32|
            row < image_height ==> #[trigger] is_assigned(
                partition(image_height, thread_count),
                order,
                row,
            ),
        forall|j: int, k: int, row: u32|
            0 <= j < partition(image_height, thread_count).len() && 0 <= k < partition(
                image_height,
                thread_count,
            ).len() && #[trigger] stands_in(
                partition(image_height, thread_count)[j],
                order,
                row,
            ) && #[trigger] stands_in(partition(image_height, thread_count)[k], order, row) ==> j
                == k,
{
    let p = partition(image_height, thread_count);
    lemma_row_order_places(order, image_height);
    lemma_partition_blocks_disjoint(image_height, thread_count);
    assert forall|row: u32| row < image_height implies #[trigger] is_assigned(p, order, row) by {
        assert(order.contains(row));
        let place = choose|place: int| 0 <= place < order.len() && order[place] == row;
        lemma_partition_owner(image_height, thread_count, place);
        let k = place / (rows_per_thread(image_height, thread_count) as int);
        lemma_block_bounds(image_height, thread_count, k);
        assert(block_rows_in(p[k], order)[place - p[k].start_row] == row);
        assert(stands_in(p[k], order, row));
    }
    assert forall|j: int, k: int, row: u32|
        0 <= j < p.len() && 0 <= k < p.len() && #[trigger] stands_in(p[j], order, row)
            && #[trigger] stands_in(p[k], order, row) implies j == k by {
        lemma_block_bounds(image_height, thread_count, j);
        lemma_block_bounds(image_height, thread_count, k);
        let in_j = block_rows_in(p[j], order);
        let in_k = block_rows_in(p[k], order);
        let a = choose|a: int| 0 <= a < in_j.len() && in_j[a] == row;
        let b = choose|b: int| 0 <= b < in_k.len() && in_k[b] == row;
        let place_a = p[j].start_row + a;
        let place_b = p[k].start_row + b;
        assert(order[place_a] == row);
        assert(order[place_b] == row);
        assert(place_a == place_b);
        assert(p[j].owns(place_a));
        assert(p[k].owns(place_a));
    }
}

} // verus!
