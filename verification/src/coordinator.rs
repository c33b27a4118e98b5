//! The coordinator's side of a render: taking finished rows in whatever
//! order the workers deliver them, and putting the image together once every
//! row is there.
//!
//! The coordinator refuses a row that does not belong to the image, that has
//! the wrong width, or whose index it already holds. When it holds as many
//! rows as the image has, it sorts them by row index and joins their pixels.
//! The image that comes out is a function of the rows alone, not of the
//! order of their arrival.

use crate::image::{Image, RenderColor};
use crate::rows::{
    has_row, image_pixels, lemma_row_pixels_at, lemma_sorted_complete_rows_in_place,
    lemma_valid_in_any_order, lemma_valid_rows_count, row_pixels, rows_complete, rows_sorted,
    rows_valid, rows_view, RenderRowResult, RowView,
};
use vstd::prelude::*;

verus! {

/// Why the coordinator did not take a row.
#[derive(Debug, Clone, Copy, PartialEq, Eq, Structural)]
pub enum RowError {
    /// The row's index is not below the image's height.
    OutOfRange,
    /// The row does not have as many pixels as the image is wide.
    WrongWidth,
    /// A row with this index was taken before.
    Duplicate,
}

/// What the coordinator answers to a row, given the rows it already holds.
pub open spec fn verdict(
    held: Seq<RowView>,
    width: nat,
    height: nat,
    row: RowView,
) -> Result<(), RowError> {
    if row.row_index >= height {
        Err(RowError::OutOfRange)
    } else if row.pixels.len() != width {
        Err(RowError::WrongWidth)
    } else if has_row(held, row.row_index) {
        Err(RowError::Duplicate)
    } else {
        Ok(())
    }
}

/// Appends a copy of `pixels` to `out`.
fn append_pixels(out: &mut Vec<RenderColor>, pixels: &Vec<RenderColor>)
    ensures
        final(out)@ == old(out)@ + pixels@,
{
    let mut j: usize = 0;
    assert(out@ =~= old(out)@ + pixels@.take(0));
    while j < pixels.len()
        invariant
            j <= pixels.len(),
            out@ == old(out)@ + pixels@.take(j as int),
        decreases pixels.len() - j,
    {
        out.push(pixels[j]);
        assert(out@ =~= old(out)@ + pixels@.take(j + 1));
        j = j + 1;
    }
    assert(pixels@.take(pixels.len() as int) =~= pixels@);
}

/// Sorts rows by row index, by insertion.
fn sort_rows(rows: Vec<RenderRowResult>) -> (sorted: Vec<RenderRowResult>)
    ensures
        rows_sorted(rows_view(sorted@)),
        rows_view(sorted@).to_multiset() == rows_view(rows@).to_multiset(),
{
    broadcast use vstd::seq_lib::group_to_multiset_ensures;

    let mut input = rows;
    let mut sorted: Vec<RenderRowResult> = Vec::new();
    assert(rows_view(sorted@) =~= Seq::<RowView>::empty());
    assert(rows_view(sorted@).to_multiset().add(rows_view(input@).to_multiset())
        =~= rows_view(rows@).to_multiset());
    while input.len() > 0
        invariant
            rows_sorted(rows_view(sorted@)),
            rows_view(sorted@).to_multiset().add(rows_view(input@).to_multiset()) == rows_view(
                rows@,
            ).to_multiset(),
        decreases input.len(),
    {
        let ghost input_before = rows_view(input@);
        let ghost sorted_before = rows_view(sorted@);
        let row = input.pop().unwrap();
        proof {
            assert(rows_view(input@) =~= input_before.drop_last());
            assert(input_before =~= rows_view(input@).push(row@));
        }
        let mut at: usize = 0;
        while at < sorted.len() && sorted[at].row_index <= row.row_index
            invariant
                at <= sorted.len(),
                forall|k: int| 0 <= k < at ==> (#[trigger] sorted@[k]).row_index <= row.row_index,
            decreases sorted.len() - at,
        {
            at = at + 1;
        }
        sorted.insert(at, row);
        proof {
            let now = rows_view(sorted@);
            assert(now =~= sorted_before.insert(at as int, row@));
            assert forall|i: int, j: int| 0 <= i < j < now.len() implies (#[trigger] now[i]).row_index
                <= (#[trigger] now[j]).row_index by {
                if j < at {
                    assert(now[i] == sorted_before[i] && now[j] == sorted_before[j]);
                } else if j == at {
                    assert(now[i] == sorted_before[i]);
                    assert(sorted_before[i].row_index <= row.row_index);
                } else if i < at {
                    assert(now[i] == sorted_before[i] && now[j] == sorted_before[j - 1]);
                    if i < j - 1 {
                        assert(sorted_before[i].row_index <= sorted_before[j - 1].row_index);
                    }
                } else if i == at {
                    assert(now[j] == sorted_before[j - 1]);
                    assert(sorted_before[at as int].row_index > row.row_index);
                    if (at as int) < j - 1 {
                        assert(sorted_before[at as int].row_index <= sorted_before[j
                            - 1].row_index);
                    }
                } else {
                    assert(now[i] == sorted_before[i - 1] && now[j] == sorted_before[j - 1]);
                    assert(sorted_before[i - 1].row_index <= sorted_before[j - 1].row_index);
                }
            }
            vstd::seq_lib::to_multiset_insert(sorted_before, at as int, row@);
            vstd::seq_lib::to_multiset_build(rows_view(input@), row@);
            assert(now.to_multiset() =~= sorted_before.to_multiset().insert(row@));
            assert(input_before.to_multiset() =~= rows_view(input@).to_multiset().insert(row@));
            assert(now.to_multiset().add(rows_view(input@).to_multiset())
                =~= sorted_before.to_multiset().add(input_before.to_multiset()));
        }
    }
    proof {
        assert(rows_view(input@) =~= Seq::<RowView>::empty());
        assert(rows_view(sorted@).to_multiset() =~= rows_view(rows@).to_multiset());
    }
    sorted
}

/// Complete rows in ascending order hold, at position `i`, the pixels that
/// any other order of the same rows holds for row `i`.
proof fn lemma_sorted_rows_are_the_image_rows(
    held: Seq<RowView>,
    sorted: Seq<RowView>,
    width: nat,
    height: nat,
)
    requires
        rows_complete(held, width, height),
        rows_sorted(sorted),
        sorted.to_multiset() == held.to_multiset(),
    ensures
        sorted.len() == height,
        forall|i: int|
            0 <= i < height ==> (#[trigger] sorted[i]).pixels == row_pixels(held, i as nat),
{
    broadcast use vstd::seq_lib::group_to_multiset_ensures;

    lemma_valid_in_any_order(held, sorted, width, height);
    lemma_sorted_complete_rows_in_place(sorted, width, height);
    assert forall|i: int| 0 <= i < height implies (#[trigger] sorted[i]).pixels == row_pixels(
        held,
        i as nat,
    ) by {
        assert(sorted.contains(sorted[i]));
        assert(sorted.to_multiset().count(sorted[i]) > 0);
        assert(held.contains(sorted[i]));
        let k = choose|k: int| 0 <= k < held.len() && held[k] == sorted[i];
        lemma_row_pixels_at(held, width, height, k);
    }
}

/// The rows received so far, for an image of a fixed size.
pub struct Coordinator {
    width: u32,
    height: u32,
    received: Vec<RenderRowResult>,
}

impl Coordinator {
    #[verifier::type_invariant]
    spec fn well_formed(self) -> bool {
        rows_valid(rows_view(self.received@), self.width as nat, self.height as nat)
    }

    /// The width of the image.
    pub closed spec fn spec_width(&self) -> u32 {
        self.width
    }

    /// The height of the image.
    pub closed spec fn spec_height(&self) -> u32 {
        self.height
    }

    /// The rows taken so far, in the order of their arrival.
    pub closed spec fn received(&self) -> Seq<RowView> {
        rows_view(self.received@)
    }

    /// A coordinator for an image of the given size, with no row received.
    pub fn new(width: u32, height: u32) -> (coordinator: Self)
        ensures
            coordinator.spec_width() == width,
            coordinator.spec_height() == height,
            coordinator.received() == Seq::<RowView>::empty(),
    {
        let coordinator = Coordinator { width, height, received: Vec::new() };
        assert(coordinator.received() =~= Seq::<RowView>::empty());
        coordinator
    }

    #[verifier::when_used_as_spec(spec_width)]
    pub fn width(&self) -> (w: u32)
        ensures
            w == self.spec_width(),
    {
        self.width
    }

    #[verifier::when_used_as_spec(spec_height)]
    pub fn height(&self) -> (h: u32)
        ensures
            h == self.spec_height(),
    {
        self.height
    }

    /// Whether a row with index `row_index` was taken.
    pub fn holds_row(&self, row_index: u32) -> (held: bool)
        ensures
            held == has_row(self.received(), row_index as nat),
    {
        let mut i: usize = 0;
        while i < self.received.len()
            invariant
                i <= self.received.len(),
                forall|k: int|
                    0 <= k < i ==> (#[trigger] rows_view(self.received@)[k]).row_index
                        != row_index,
            decreases self.received.len() - i,
        {
            if self.received[i].row_index == row_index {
                assert(rows_view(self.received@)[i as int].row_index == row_index);
                return true;
            }
            i = i + 1;
        }
        false
    }

    /// Takes a finished row.
    ///
    /// The row is refused, and nothing changes, when it lies outside the
    /// image, has the wrong width, or repeats a row index.
    pub fn accept(&mut self, row: RenderRowResult) -> (outcome: Result<(), RowError>)
        ensures
            final(self).spec_width() == old(self).spec_width(),
            final(self).spec_height() == old(self).spec_height(),
            outcome == verdict(
                old(self).received(),
                old(self).spec_width() as nat,
                old(self).spec_height() as nat,
                row@,
            ),
            outcome is Ok ==> final(self).received() == old(self).received().push(row@),
            outcome is Err ==> final(self).received() == old(self).received(),
            rows_valid(
                final(self).received(),
                final(self).spec_width() as nat,
                final(self).spec_height() as nat,
            ),
    {
        proof {
            use_type_invariant(&*self);
        }
        if row.row_index >= self.height {
            return Err(RowError::OutOfRange);
        }
        if row.pixels.len() != self.width as usize {
            return Err(RowError::WrongWidth);
        }
        if self.holds_row(row.row_index) {
            return Err(RowError::Duplicate);
        }
        let ghost before = rows_view(self.received@);
        let mut received: Vec<RenderRowResult> = Vec::new();
        std::mem::swap(&mut received, &mut self.received);
        assert(rows_view(self.received@) =~= Seq::<RowView>::empty());
        received.push(row);
        proof {
            let now = rows_view(received@);
            assert(now =~= before.push(row@));
            assert forall|i: int, j: int| 0 <= i < j < now.len() implies (#[trigger] now[i]).row_index
                != (#[trigger] now[j]).row_index by {
                if j < before.len() {
                    assert(before[i].row_index != before[j].row_index);
                } else {
                    assert(before[i].row_index != row@.row_index);
                }
            }
        }
        self.received = received;
        Ok(())
    }

    /// The number of rows that are still missing.
    pub fn rows_remaining(&self) -> (n: u32)
        ensures
            self.received().len() <= self.spec_height(),
            n == self.spec_height() - self.received().len(),
    {
        proof {
            use_type_invariant(self);
            lemma_valid_rows_count(
                rows_view(self.received@),
                self.width as nat,
                self.height as nat,
            );
        }
        self.height - self.received.len() as u32
    }

    /// Whether every row of the image has been received.
    pub fn is_complete(&self) -> (done: bool)
        ensures
            done == rows_complete(
                self.received(),
                self.spec_width() as nat,
                self.spec_height() as nat,
            ),
            done == (self.received().len() == self.spec_height()),
    {
        proof {
            use_type_invariant(self);
        }
        self.rows_remaining() == 0
    }

    /// Puts the image together, if every row has been received.
    ///
    /// The rows are sorted by row index and their pixels joined, so that
    /// the image holds row 0 first and the last row last.
    pub fn into_image(self) -> (image: Option<Image>)
        ensures
            image is Some <==> self.received().len() == self.spec_height(),
            image matches Some(img) ==> img.spec_width() == self.spec_width() && img.spec_height()
                == self.spec_height() && img@ == image_pixels(
                self.received(),
                self.spec_height() as nat,
            ),
    {
        proof {
            use_type_invariant(&self);
        }
        if !self.is_complete() {
            return None;
        }
        let width = self.width;
        let height = self.height;
        let ghost held = rows_view(self.received@);
        let sorted = sort_rows(self.received);
        let ghost grid = Seq::new(height as nat, |r: int| row_pixels(held, r as nat));
        proof {
            lemma_sorted_rows_are_the_image_rows(
                held,
                rows_view(sorted@),
                width as nat,
                height as nat,
            );
            lemma_valid_in_any_order(held, rows_view(sorted@), width as nat, height as nat);
        }
        let mut pixels: Vec<RenderColor> = Vec::new();
        let mut i: usize = 0;
        proof {
            assert(grid.take(0) =~= Seq::<Seq<RenderColor>>::empty());
            assert forall|r: int| 0 <= r < height implies (#[trigger] grid[r]).len() == width by {
                assert(rows_view(sorted@)[r].pixels == grid[r]);
            }
        }
        while i < sorted.len()
            invariant
                i <= sorted.len(),
                sorted.len() == height,
                grid.len() == height,
                forall|r: int| 0 <= r < height ==> (#[trigger] rows_view(sorted@)[r]).pixels == grid[r],
                forall|r: int| 0 <= r < height ==> (#[trigger] grid[r]).len() == width,
                pixels@ == grid.take(i as int).flatten(),
            decreases sorted.len() - i,
        {
            append_pixels(&mut pixels, &sorted[i].pixels);
            proof {
                assert(rows_view(sorted@)[i as int].pixels == grid[i as int]);
                assert(grid.take(i + 1) =~= grid.take(i as int).push(grid[i as int]));
                grid.take(i as int).lemma_flatten_push(grid[i as int]);
            }
            i = i + 1;
        }
        proof {
            assert(grid.take(height as int) =~= grid);
            crate::rows::lemma_image_size(held, width as nat, height as nat);
        }
        Image::new(width, height, pixels)
    }
}

} // verus!
