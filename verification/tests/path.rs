use raytracer::path::{PathEnd, PathEvent, PathState};

fn run(max_depth: u32, events: &[PathEvent]) -> PathState {
    let mut state = PathState::start(max_depth);
    for event in events {
        state = state.advance(*event);
    }
    state
}

/// The recursive definition, written out.
fn ends_in(depth: u32, events: &[PathEvent]) -> PathEnd {
    if depth == 0 {
        return PathEnd::Black;
    }
    match events.first() {
        None => PathEnd::Background,
        Some(PathEvent::Miss) => PathEnd::Background,
        Some(PathEvent::Absorbed) => PathEnd::Black,
        Some(PathEvent::Scattered) => ends_in(depth - 1, &events[1..]),
    }
}

#[test]
fn a_path_without_bounces_is_black_at_once() {
    let state = PathState::start(0);
    assert_eq!(state, PathState::Done(PathEnd::Black));
    assert_eq!(state.end(), Some(PathEnd::Black));
    assert_eq!(state.depth(), 0);
}

#[test]
fn a_path_with_bounces_starts_by_tracing() {
    let state = PathState::start(50);
    assert_eq!(state, PathState::Tracing { depth: 50 });
    assert_eq!(state.end(), None);
    assert_eq!(state.depth(), 50);
}

#[test]
fn a_miss_ends_in_the_background() {
    assert_eq!(run(1, &[PathEvent::Miss]), PathState::Done(PathEnd::Background));
    assert_eq!(run(50, &[PathEvent::Miss]), PathState::Done(PathEnd::Background));
    assert_eq!(
        run(50, &[PathEvent::Scattered, PathEvent::Scattered, PathEvent::Miss]),
        PathState::Done(PathEnd::Background)
    );
}

#[test]
fn an_absorption_ends_in_black() {
    assert_eq!(run(50, &[PathEvent::Absorbed]), PathState::Done(PathEnd::Black));
    assert_eq!(
        run(50, &[PathEvent::Scattered, PathEvent::Absorbed]),
        PathState::Done(PathEnd::Black)
    );
}

#[test]
fn a_scattering_uses_up_a_bounce() {
    assert_eq!(run(50, &[PathEvent::Scattered]), PathState::Tracing { depth: 49 });
    assert_eq!(run(3, &[PathEvent::Scattered, PathEvent::Scattered]), PathState::Tracing { depth: 1 });
}

#[test]
fn the_last_bounce_ends_in_black() {
    assert_eq!(run(1, &[PathEvent::Scattered]), PathState::Done(PathEnd::Black));
    assert_eq!(
        run(3, &[PathEvent::Scattered, PathEvent::Scattered, PathEvent::Scattered]),
        PathState::Done(PathEnd::Black)
    );
}

#[test]
fn a_path_that_has_ended_stays_as_it_is() {
    for end in [PathEnd::Black, PathEnd::Background] {
        for event in [PathEvent::Miss, PathEvent::Absorbed, PathEvent::Scattered] {
            assert_eq!(PathState::Done(end).advance(event), PathState::Done(end));
        }
    }
    assert_eq!(
        run(2, &[PathEvent::Miss, PathEvent::Absorbed, PathEvent::Scattered]),
        PathState::Done(PathEnd::Background)
    );
}

#[test]
fn a_path_of_depth_one_sees_one_ray() {
    // A ray that misses everything and points straight up: with a single
    // bounce allowed the path still reaches the background.
    let state = PathState::start(1);
    assert_eq!(state.end(), None);
    assert_eq!(state.advance(PathEvent::Miss).end(), Some(PathEnd::Background));
}

#[test]
fn a_path_stops_within_its_depth() {
    for depth in 0u32..8 {
        let mut state = PathState::start(depth);
        let mut traced = 0;
        while state.end().is_none() {
            state = state.advance(PathEvent::Scattered);
            traced += 1;
            assert!(traced <= depth);
        }
        assert_eq!(traced, depth);
        assert_eq!(state, PathState::Done(PathEnd::Black));
    }
}

#[test]
fn the_largest_depth_counts_down_without_overflow() {
    let state = PathState::start(u32::MAX).advance(PathEvent::Scattered);
    assert_eq!(state, PathState::Tracing { depth: u32::MAX - 1 });
}

#[test]
fn stepping_agrees_with_the_recursive_definition() {
    let all = [PathEvent::Miss, PathEvent::Absorbed, PathEvent::Scattered];
    for depth in 0u32..5 {
        // Every sequence of four events.
        for code in 0..81 {
            let mut events = Vec::new();
            let mut rest = code;
            for _ in 0..4 {
                events.push(all[rest % 3]);
                rest /= 3;
            }
            let expected = ends_in(depth, &events);
            match run(depth, &events) {
                PathState::Done(end) => assert_eq!(end, expected),
                PathState::Tracing { depth: left } => {
                    // Only a path that was scattered every time is still going.
                    assert!(events.iter().all(|e| *e == PathEvent::Scattered));
                    assert_eq!(left, depth - 4);
                }
            }
        }
    }
}
