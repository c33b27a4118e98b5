use raytracer::image::RenderColor;
use raytracer::schedule::ThreadInfo;
use raytracer::worker::{ThreadProgress, Worker, WorkerError, WorkerStep};

fn row_of(width: usize, shade: u8) -> Vec<RenderColor> {
    vec![RenderColor::new(shade, shade, shade); width]
}

#[test]
fn a_worker_needs_a_well_formed_block() {
    let good = ThreadInfo { row_count: 2, start_row: 4, end_row: 5, thread_idx: 1 };
    assert!(Worker::new(good, 3).is_some());
    let empty = ThreadInfo { row_count: 0, start_row: 4, end_row: 4, thread_idx: 1 };
    assert!(Worker::new(empty, 3).is_none());
    let reversed = ThreadInfo { row_count: 1, start_row: 5, end_row: 4, thread_idx: 1 };
    assert!(Worker::new(reversed, 3).is_none());
    let miscounted = ThreadInfo { row_count: 3, start_row: 4, end_row: 5, thread_idx: 1 };
    assert!(Worker::new(miscounted, 3).is_none());
}

#[test]
fn a_worker_walks_its_block_from_first_to_last_row() {
    let info = ThreadInfo { row_count: 3, start_row: 6, end_row: 8, thread_idx: 2 };
    let mut worker = Worker::new(info, 2).unwrap();
    assert_eq!(worker.rows_remaining(), 3);
    assert_eq!(
        worker.next_step(),
        WorkerStep::Render {
            row: 6,
            progress: ThreadProgress { scanlines_remaining: 2, thread_idx: 2 }
        }
    );
    assert_eq!(worker.record(row_of(2, 60)), Ok(()));
    assert_eq!(worker.rows_remaining(), 2);
    assert_eq!(
        worker.next_step(),
        WorkerStep::Render {
            row: 7,
            progress: ThreadProgress { scanlines_remaining: 1, thread_idx: 2 }
        }
    );
    assert_eq!(worker.record(row_of(2, 70)), Ok(()));
    assert_eq!(
        worker.next_step(),
        WorkerStep::Render {
            row: 8,
            progress: ThreadProgress { scanlines_remaining: 0, thread_idx: 2 }
        }
    );
    assert_eq!(worker.record(row_of(2, 80)), Ok(()));
    assert_eq!(worker.rows_remaining(), 0);
    assert_eq!(worker.next_step(), WorkerStep::Deliver);

    let result = worker.deliver().unwrap();
    assert_eq!(result.thread_idx, 2);
    assert_eq!(result.rows.len(), 3);
    for (i, row) in result.rows.iter().enumerate() {
        assert_eq!(row.row_index, 6 + i as u32);
        assert_eq!(row.pixels, row_of(2, 60 + 10 * i as u8));
    }
}

#[test]
fn asking_for_the_next_step_changes_nothing() {
    let info = ThreadInfo { row_count: 2, start_row: 0, end_row: 1, thread_idx: 0 };
    let worker = Worker::new(info, 1).unwrap();
    assert_eq!(worker.next_step(), worker.next_step());
    assert_eq!(worker.rows_remaining(), 2);
}

#[test]
fn a_worker_refuses_a_row_of_the_wrong_width() {
    let info = ThreadInfo { row_count: 2, start_row: 0, end_row: 1, thread_idx: 0 };
    let mut worker = Worker::new(info, 4).unwrap();
    assert_eq!(worker.record(row_of(3, 1)), Err(WorkerError::WrongWidth));
    assert_eq!(worker.record(row_of(5, 1)), Err(WorkerError::WrongWidth));
    assert_eq!(worker.record(vec![]), Err(WorkerError::WrongWidth));
    assert_eq!(worker.rows_remaining(), 2);
    assert_eq!(
        worker.next_step(),
        WorkerStep::Render {
            row: 0,
            progress: ThreadProgress { scanlines_remaining: 1, thread_idx: 0 }
        }
    );
}

#[test]
fn a_finished_block_takes_no_more_rows() {
    let info = ThreadInfo { row_count: 1, start_row: 9, end_row: 9, thread_idx: 3 };
    let mut worker = Worker::new(info, 1).unwrap();
    assert_eq!(worker.record(row_of(1, 5)), Ok(()));
    assert_eq!(worker.record(row_of(1, 6)), Err(WorkerError::BlockFinished));
    // The block being finished is reported before the width is looked at.
    assert_eq!(worker.record(row_of(2, 6)), Err(WorkerError::BlockFinished));
    let result = worker.deliver().unwrap();
    assert_eq!(result.rows.len(), 1);
    assert_eq!(result.rows[0].pixels, row_of(1, 5));
}

#[test]
fn an_unfinished_block_is_not_delivered() {
    let info = ThreadInfo { row_count: 2, start_row: 0, end_row: 1, thread_idx: 0 };
    let mut worker = Worker::new(info, 1).unwrap();
    assert_eq!(worker.record(row_of(1, 5)), Ok(()));
    assert!(worker.deliver().is_none());
    let untouched = Worker::new(info, 1).unwrap();
    assert!(untouched.deliver().is_none());
}

#[test]
fn the_last_rows_of_the_tallest_image_do_not_overflow() {
    let info = ThreadInfo {
        row_count: 2,
        start_row: u32::MAX - 1,
        end_row: u32::MAX,
        thread_idx: 7,
    };
    let mut worker = Worker::new(info, 0).unwrap();
    assert_eq!(
        worker.next_step(),
        WorkerStep::Render {
            row: u32::MAX - 1,
            progress: ThreadProgress { scanlines_remaining: 1, thread_idx: 7 }
        }
    );
    assert_eq!(worker.record(vec![]), Ok(()));
    assert_eq!(
        worker.next_step(),
        WorkerStep::Render {
            row: u32::MAX,
            progress: ThreadProgress { scanlines_remaining: 0, thread_idx: 7 }
        }
    );
    assert_eq!(worker.record(vec![]), Ok(()));
    assert_eq!(worker.next_step(), WorkerStep::Deliver);
}

#[test]
fn a_worker_with_an_order_renders_the_rows_at_its_places() {
    let order: Vec<u32> = vec![5, 2, 7, 0, 6, 1, 4, 3];
    let info = ThreadInfo { row_count: 3, start_row: 3, end_row: 5, thread_idx: 1 };
    let mut worker = Worker::with_order(info, &order, 2).unwrap();
    let mut rendered = Vec::new();
    let mut remaining = Vec::new();
    loop {
        match worker.next_step() {
            WorkerStep::Render { row, progress } => {
                assert_eq!(progress.thread_idx, 1);
                rendered.push(row);
                remaining.push(progress.scanlines_remaining);
                assert_eq!(worker.record(row_of(2, row as u8)), Ok(()));
            }
            WorkerStep::Deliver => break,
        }
    }
    assert_eq!(rendered, vec![0, 6, 1]);
    assert_eq!(remaining, vec![2, 1, 0]);
    let result = worker.deliver().unwrap();
    assert_eq!(result.thread_idx, 1);
    let delivered: Vec<(u32, Vec<RenderColor>)> =
        result.rows.into_iter().map(|r| (r.row_index, r.pixels)).collect();
    assert_eq!(
        delivered,
        vec![(0, row_of(2, 0)), (6, row_of(2, 6)), (1, row_of(2, 1))]
    );
}

#[test]
fn a_block_must_lie_within_the_order() {
    let order: Vec<u32> = vec![2, 0, 1];
    let inside = ThreadInfo { row_count: 2, start_row: 1, end_row: 2, thread_idx: 0 };
    assert!(Worker::with_order(inside, &order, 1).is_some());
    let beyond = ThreadInfo { row_count: 2, start_row: 2, end_row: 3, thread_idx: 0 };
    assert!(Worker::with_order(beyond, &order, 1).is_none());
    let malformed = ThreadInfo { row_count: 5, start_row: 1, end_row: 2, thread_idx: 0 };
    assert!(Worker::with_order(malformed, &order, 1).is_none());
    let any = ThreadInfo { row_count: 1, start_row: 0, end_row: 0, thread_idx: 0 };
    assert!(Worker::with_order(any, &vec![], 1).is_none());
}

#[test]
fn the_ascending_order_gives_the_rows_of_the_block() {
    let order: Vec<u32> = (0..10).collect();
    let info = ThreadInfo { row_count: 4, start_row: 3, end_row: 6, thread_idx: 0 };
    let mut plain = Worker::new(info, 0).unwrap();
    let mut ordered = Worker::with_order(info, &order, 0).unwrap();
    for _ in 0..5 {
        assert_eq!(plain.next_step(), ordered.next_step());
        assert_eq!(plain.record(vec![]), ordered.record(vec![]));
    }
}
