//! One render worker's walk through its block of rows.
//!
//! A worker renders the rows of its block from the first to the last. Before
//! each row it reports how many rows lie behind the one it starts; after the
//! last it hands over all finished rows at once. What a row looks like is
//! for the caller to compute: the worker decides which row is next, checks
//! what it is given and keeps the finished rows in order.
//!
//! Neighbouring rows tend to cost alike, so that a block of neighbours may
//! be much dearer than another. A worker can therefore be given an order of
//! the image's rows: it then takes its block as places in that order and
//! renders the rows that stand there.

use crate::image::RenderColor;
use crate::rows::{rows_view, RenderRowResult, RowView};
use crate::schedule::{block_rows, block_rows_in, ThreadInfo};
use vstd::prelude::*;

verus! {

/// A worker's report at the start of a row.
#[derive(Debug, Clone, Copy, PartialEq, Eq, Structural)]
pub struct ThreadProgress {
    pub scanlines_remaining: u32,
    pub thread_idx: u32,
}

/// Everything a worker has rendered, handed over when its block is done.
#[derive(Debug)]
pub struct ThreadResult {
    pub thread_idx: u32,
    pub rows: Vec<RenderRowResult>,
}

/// What a worker does next.
#[derive(Debug, Clone, Copy, PartialEq, Eq, Structural)]
pub enum WorkerStep {
    /// Send `progress`, then render row `row`.
    Render { row: u32, progress: ThreadProgress },
    /// Every row is rendered: hand the rows over.
    Deliver,
}

/// Why a worker did not take a row.
#[derive(Debug, Clone, Copy, PartialEq, Eq, Structural)]
pub enum WorkerError {
    /// Every row of the block is already rendered.
    BlockFinished,
    /// The row does not have as many pixels as the image is wide.
    WrongWidth,
}

/// The state of one worker: its block, the rows it is to render and the
/// rows it has finished.
pub struct Worker {
    info: ThreadInfo,
    image_width: u32,
    order: Option<Vec<u32>>,
    rows: Vec<RenderRowResult>,
}

/// The rows that a worker hands over: for each of `pixels`, in order, the
/// row that it was rendered for.
pub open spec fn rows_as_dealt(assigned: Seq<u32>, pixels: Seq<Seq<RenderColor>>) -> Seq<RowView> {
    Seq::new(pixels.len(), |i: int| RowView { row_index: assigned[i] as nat, pixels: pixels[i] })
}

impl Worker {
    #[verifier::type_invariant]
    spec fn well_formed(self) -> bool {
        &&& self.info.wf()
        &&& self.order matches Some(order) ==> order@.len() == self.info.row_count
        &&& self.rows@.len() <= self.info.row_count
        &&& forall|i: int|
            0 <= i < self.rows@.len() ==> (#[trigger] self.rows@[i]).row_index
                == self.assigned()[i] && self.rows@[i].pixels@.len() == self.image_width
    }

    /// The worker's block.
    pub closed spec fn info(&self) -> ThreadInfo {
        self.info
    }

    /// The width of the image that the worker renders rows of.
    pub closed spec fn image_width(&self) -> u32 {
        self.image_width
    }

    /// The rows that the worker is to render, in the order in which it
    /// renders them.
    pub closed spec fn assigned(&self) -> Seq<u32> {
        match self.order {
            Some(order) => order@,
            None => block_rows(self.info),
        }
    }

    /// The pixels of the rows finished so far, first row first.
    pub closed spec fn finished(&self) -> Seq<Seq<RenderColor>> {
        self.rows@.map_values(|row: RenderRowResult| row.pixels@)
    }

    /// A worker for the rows of the block `info` of an image `image_width`
    /// pixels wide, with no row rendered yet; none for a block that is not
    /// well formed.
    pub fn new(info: ThreadInfo, image_width: u32) -> (worker: Option<Self>)
        ensures
            worker is Some <==> info.wf(),
            worker matches Some(w) ==> w.info() == info && w.image_width() == image_width
                && w.assigned() == block_rows(info) && w.finished() == Seq::<
                Seq<RenderColor>,
            >::empty(),
    {
        if info.is_wf() {
            let worker = Worker { info, image_width, order: None, rows: Vec::new() };
            assert(worker.finished() =~= Seq::<Seq<RenderColor>>::empty());
            Some(worker)
        } else {
            None
        }
    }

    /// A worker for the rows that stand at the places of the block `info`
    /// in `order`, with no row rendered yet; none for a block that is not
    /// well formed or reaches beyond the end of `order`.
    pub fn with_order(info: ThreadInfo, order: &Vec<u32>, image_width: u32) -> (worker: Option<
        Self,
    >)
        ensures
            worker is Some <==> info.wf() && info.end_row < order@.len(),
            worker matches Some(w) ==> w.info() == info && w.image_width() == image_width
                && w.assigned() == block_rows_in(info, order@) && w.finished() == Seq::<
                Seq<RenderColor>,
            >::empty(),
    {
        if !info.is_wf() || info.end_row as usize >= order.len() {
            return None;
        }
        let mut assigned: Vec<u32> = Vec::new();
        let mut place: usize = info.start_row as usize;
        let after: usize = info.end_row as usize + 1;
        while place < after
            invariant
                info.start_row <= place <= after,
                after == info.end_row + 1,
                after <= order@.len(),
                assigned@ == order@.subrange(info.start_row as int, place as int),
            decreases after - place,
        {
            assigned.push(order[place]);
            place = place + 1;
            assert(assigned@ =~= order@.subrange(info.start_row as int, place as int));
        }
        let worker = Worker { info, image_width, order: Some(assigned), rows: Vec::new() };
        assert(worker.finished() =~= Seq::<Seq<RenderColor>>::empty());
        Some(worker)
    }

    /// The rows of the block that are still to be rendered.
    pub fn rows_remaining(&self) -> (n: u32)
        ensures
            self.assigned().len() == self.info().row_count,
            self.finished().len() <= self.info().row_count,
            n == self.info().row_count - self.finished().len(),
    {
        proof {
            use_type_invariant(self);
        }
        self.info.row_count - self.rows.len() as u32
    }

    /// What the worker does next: render the first of its rows that is not
    /// finished, after reporting how many rows follow that one, or hand the
    /// rows over when none is left.
    pub fn next_step(&self) -> (step: WorkerStep)
        ensures
            step == if self.finished().len() < self.info().row_count {
                WorkerStep::Render {
                    row: self.assigned()[self.finished().len() as int],
                    progress: ThreadProgress {
                        scanlines_remaining: (self.info().row_count - 1
                            - self.finished().len()) as u32,
                        thread_idx: self.info().thread_idx,
                    },
                }
            } else {
                WorkerStep::Deliver
            },
    {
        proof {
            use_type_invariant(self);
        }
        let done: u32 = self.rows.len() as u32;
        if done < self.info.row_count {
            let row: u32 = match &self.order {
                Some(order) => order[done as usize],
                None => self.info.start_row + done,
            };
            WorkerStep::Render {
                row,
                progress: ThreadProgress {
                    scanlines_remaining: self.info.row_count - 1 - done,
                    thread_idx: self.info.thread_idx,
                },
            }
        } else {
            WorkerStep::Deliver
        }
    }

    /// Takes the pixels of the row that `next_step` asked for.
    ///
    /// The row is refused, and nothing changes, when the block is already
    /// finished or when `pixels` is not one row of the image.
    pub fn record(&mut self, pixels: Vec<RenderColor>) -> (outcome: Result<(), WorkerError>)
        ensures
            final(self).info() == old(self).info(),
            final(self).image_width() == old(self).image_width(),
            final(self).assigned() == old(self).assigned(),
            outcome == if old(self).finished().len() >= old(self).info().row_count {
                Err::<(), WorkerError>(WorkerError::BlockFinished)
            } else if pixels@.len() != old(self).image_width() {
                Err(WorkerError::WrongWidth)
            } else {
                Ok(())
            },
            outcome is Ok ==> final(self).finished() == old(self).finished().push(pixels@),
            outcome is Err ==> final(self).finished() == old(self).finished(),
    {
        proof {
            use_type_invariant(&*self);
        }
        if self.rows.len() >= self.info.row_count as usize {
            return Err(WorkerError::BlockFinished);
        }
        if pixels.len() != self.image_width as usize {
            return Err(WorkerError::WrongWidth);
        }
        let done: usize = self.rows.len();
        let row_index: u32 = match &self.order {
            Some(order) => order[done],
            None => self.info.start_row + done as u32,
        };
        let mut rows: Vec<RenderRowResult> = Vec::new();
        std::mem::swap(&mut rows, &mut self.rows);
        rows.push(RenderRowResult { row_index, pixels });
        self.rows = rows;
        assert(self.finished() =~= old(self).finished().push(pixels@));
        Ok(())
    }

    /// Hands over the finished rows, if the whole block is rendered.
    ///
    /// The rows handed over are the worker's rows, in the order in which
    /// it rendered them, each as wide as the image, with the pixels that
    /// were recorded for them.
    pub fn deliver(self) -> (result: Option<ThreadResult>)
        ensures
            result is Some <==> self.finished().len() == self.info().row_count,
            result matches Some(r) ==> r.thread_idx == self.info().thread_idx && rows_view(r.rows@)
                == rows_as_dealt(self.assigned(), self.finished()),
            forall|i: int|
                0 <= i < self.finished().len() ==> (#[trigger] self.finished()[i]).len()
                    == self.image_width(),
    {
        proof {
            use_type_invariant(&self);
        }
        if self.rows.len() == self.info.row_count as usize {
            let thread_idx = self.info.thread_idx;
            let ghost assigned = self.assigned();
            let ghost finished = self.finished();
            let rows = self.rows;
            assert(rows_view(rows@) =~= rows_as_dealt(assigned, finished));
            Some(ThreadResult { thread_idx, rows })
        } else {
            None
        }
    }
}

} // verus!
