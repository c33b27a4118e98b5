use raytracer::schedule::{get_threads_info, partition_rows, ThreadInfo};

fn assert_exact_cover(infos: &Vec<ThreadInfo>, image_height: u32) {
    let mut seen = vec![0u32; image_height as usize];
    for (k, info) in infos.iter().enumerate() {
        assert!(info.is_wf());
        assert_eq!(info.thread_idx as usize, k);
        for row in info.start_row..=info.end_row {
            assert!(row < image_height);
            seen[row as usize] += 1;
        }
    }
    for count in seen {
        assert_eq!(count, 1);
    }
    let total: u64 = infos.iter().map(|i| i.row_count as u64).sum();
    assert_eq!(total, image_height as u64);
}

#[test]
fn ten_rows_among_four_workers() {
    let infos = partition_rows(10, 4);
    assert_eq!(
        infos,
        vec![
            ThreadInfo { row_count: 3, start_row: 0, end_row: 2, thread_idx: 0 },
            ThreadInfo { row_count: 3, start_row: 3, end_row: 5, thread_idx: 1 },
            ThreadInfo { row_count: 3, start_row: 6, end_row: 8, thread_idx: 2 },
            ThreadInfo { row_count: 1, start_row: 9, end_row: 9, thread_idx: 3 },
        ]
    );
}

#[test]
fn rows_that_divide_evenly() {
    let infos = partition_rows(12, 3);
    assert_eq!(
        infos,
        vec![
            ThreadInfo { row_count: 4, start_row: 0, end_row: 3, thread_idx: 0 },
            ThreadInfo { row_count: 4, start_row: 4, end_row: 7, thread_idx: 1 },
            ThreadInfo { row_count: 4, start_row: 8, end_row: 11, thread_idx: 2 },
        ]
    );
}

#[test]
fn some_workers_may_get_nothing() {
    // Blocks of two rows: five blocks hold the ten rows, three workers idle.
    let infos = partition_rows(10, 8);
    assert_eq!(infos.len(), 5);
    assert_eq!(infos[4], ThreadInfo { row_count: 2, start_row: 8, end_row: 9, thread_idx: 4 });
    assert_exact_cover(&infos, 10);
}

#[test]
fn more_workers_than_rows() {
    let infos = partition_rows(3, 16);
    assert_eq!(
        infos,
        vec![
            ThreadInfo { row_count: 1, start_row: 0, end_row: 0, thread_idx: 0 },
            ThreadInfo { row_count: 1, start_row: 1, end_row: 1, thread_idx: 1 },
            ThreadInfo { row_count: 1, start_row: 2, end_row: 2, thread_idx: 2 },
        ]
    );
}

#[test]
fn one_worker_takes_every_row() {
    let infos = partition_rows(667, 1);
    assert_eq!(infos, vec![ThreadInfo { row_count: 667, start_row: 0, end_row: 666, thread_idx: 0 }]);
}

#[test]
fn an_image_without_rows_has_no_blocks() {
    assert_eq!(partition_rows(0, 1), vec![]);
    assert_eq!(partition_rows(0, 12), vec![]);
}

#[test]
fn every_row_is_assigned_exactly_once() {
    for image_height in 0u32..60 {
        for thread_count in 1usize..20 {
            let infos = partition_rows(image_height, thread_count);
            assert!(infos.len() <= thread_count);
            assert_exact_cover(&infos, image_height);
        }
    }
}

#[test]
fn the_tallest_image_is_divided_without_overflow() {
    let infos = partition_rows(u32::MAX, 3);
    assert_eq!(infos.len(), 3);
    assert_eq!(infos[0], ThreadInfo { row_count: 1431655765, start_row: 0, end_row: 1431655764, thread_idx: 0 });
    assert_eq!(infos[2].end_row, u32::MAX - 1);
    let total: u64 = infos.iter().map(|i| i.row_count as u64).sum();
    assert_eq!(total, u32::MAX as u64);
}

#[test]
fn a_huge_worker_count_is_harmless() {
    let infos = partition_rows(5, usize::MAX);
    assert_eq!(infos.len(), 5);
    assert_exact_cover(&infos, 5);
}

#[test]
fn division_by_the_machines_processors_covers_the_image() {
    let infos = get_threads_info(667);
    assert!(!infos.is_empty());
    assert!(infos.len() <= num_cpus::get());
    assert_exact_cover(&infos, 667);
    assert_eq!(infos, partition_rows(667, num_cpus::get()));
}

#[test]
fn well_formedness_is_decided() {
    assert!(ThreadInfo { row_count: 3, start_row: 4, end_row: 6, thread_idx: 0 }.is_wf());
    assert!(ThreadInfo { row_count: 1, start_row: 0, end_row: 0, thread_idx: 9 }.is_wf());
    assert!(!ThreadInfo { row_count: 0, start_row: 0, end_row: 0, thread_idx: 0 }.is_wf());
    assert!(!ThreadInfo { row_count: 2, start_row: 4, end_row: 6, thread_idx: 0 }.is_wf());
    assert!(!ThreadInfo { row_count: 1, start_row: 5, end_row: 4, thread_idx: 0 }.is_wf());
    assert!(!ThreadInfo { row_count: 0, start_row: 0, end_row: u32::MAX, thread_idx: 0 }.is_wf());
}

#[test]
fn a_shuffled_order_holds_every_row_once() {
    for image_height in [0u32, 1, 2, 7, 100, 667] {
        for seed in 0u64..5 {
            let order = raytracer::schedule::shuffled_rows(image_height, seed);
            let mut sorted = order.clone();
            sorted.sort();
            let ascending: Vec<u32> = (0..image_height).collect();
            assert_eq!(sorted, ascending);
        }
    }
}

#[test]
fn a_shuffled_order_is_not_always_the_ascending_one() {
    let ascending: Vec<u32> = (0..100).collect();
    let mut shuffled = 0;
    for seed in 0u64..10 {
        if raytracer::schedule::shuffled_rows(100, seed) != ascending {
            shuffled += 1;
        }
    }
    assert!(shuffled > 0);
}

#[test]
fn a_shuffled_division_assigns_every_row_exactly_once() {
    for image_height in [1u32, 5, 10, 33] {
        for thread_count in 1usize..9 {
            let order = raytracer::schedule::shuffled_rows(image_height, 42);
            let infos = partition_rows(image_height, thread_count);
            let mut seen = vec![0u32; image_height as usize];
            for info in &infos {
                for place in info.start_row..=info.end_row {
                    seen[order[place as usize] as usize] += 1;
                }
            }
            assert!(seen.iter().all(|count| *count == 1));
        }
    }
}
