use chunk_stream::coords::{ChunkCoordinates, Point, SPAN};
use chunk_stream::manager::ChunkManager;

fn cc(x: i32, y: i32, z: i32) -> ChunkCoordinates {
    ChunkCoordinates { x, y, z }
}

fn origin() -> Point {
    Point { x: 0, y: 0, z: 0 }
}

#[test]
fn containing_world_pos_floors_each_axis() {
    let p = Point { x: 0, y: SPAN - 1, z: -1 };
    assert_eq!(ChunkCoordinates::containing_world_pos(p), cc(0, 0, -1));
    let q = Point { x: -SPAN, y: -SPAN - 1, z: 3 * SPAN + 5 };
    assert_eq!(ChunkCoordinates::containing_world_pos(q), cc(-1, -2, 3));
}

#[test]
fn center_round_trips_through_containing_world_pos() {
    for c in [cc(0, 0, 0), cc(-1, 2, -3), cc(7, -8, 9), cc(i32::MAX, i32::MIN, 0)] {
        assert_eq!(ChunkCoordinates::containing_world_pos(c.center()), c);
    }
}

#[test]
fn center_is_half_a_chunk_in() {
    assert_eq!(cc(1, -1, 0).center(), Point { x: SPAN + SPAN / 2, y: -SPAN / 2, z: SPAN / 2 });
}

#[test]
fn corners_are_eight_distinct_extreme_points() {
    let c = cc(2, -1, 0);
    let corners = c.corners();
    for i in 0..8 {
        for j in 0..8 {
            if i != j {
                assert_ne!(corners[i], corners[j]);
            }
        }
        let p = corners[i];
        assert!(p.x == 2 * SPAN || p.x == 3 * SPAN);
        assert!(p.y == -SPAN || p.y == 0);
        assert!(p.z == 0 || p.z == SPAN);
    }
    assert_eq!(corners[0], Point { x: 2 * SPAN, y: -SPAN, z: 0 });
    assert_eq!(corners[7], Point { x: 3 * SPAN, y: 0, z: SPAN });
}

#[test]
fn square_distance_is_exact() {
    let a = Point { x: 1, y: 2, z: 3 };
    let b = Point { x: 4, y: -2, z: 3 };
    assert_eq!(a.square_distance(&b), 25);
}

#[test]
fn first_treadmill_dispatches_up_to_watermark() {
    let mut m: ChunkManager<u32> = ChunkManager::new(4, 60, 8);
    let home = ChunkCoordinates::containing_world_pos(origin());
    assert_eq!(m.candidates(home).len(), 243);
    let mut ready: Vec<(ChunkCoordinates, u32)> = Vec::new();
    let work = m.treadmill(origin(), &|_p: Point| false, &mut ready, &|p: u32| p);
    assert_eq!(work.jobs.len(), 60);
    assert_eq!(m.in_flight_len(), 60);
    assert_eq!(m.active_len(), 0);
    assert!(work.evicted.is_empty());
    for j in work.jobs.iter() {
        assert!(m.is_loading(j));
    }
    // a second call dispatches nothing while the watermark is reached
    let again = m.treadmill(origin(), &|_p: Point| false, &mut ready, &|p: u32| p);
    assert!(again.jobs.is_empty());
    assert_eq!(m.in_flight_len(), 60);
}

#[test]
fn nearest_candidate_is_dispatched_first() {
    let mut m: ChunkManager<u32> = ChunkManager::new(4, 60, 8);
    let home = cc(0, 0, 0);
    let mut ready: Vec<(ChunkCoordinates, u32)> = Vec::new();
    let work = m.treadmill(home.center(), &|_p: Point| false, &mut ready, &|p: u32| p);
    assert_eq!(work.jobs[0], home);
    let d0 = home.center().square_distance(&work.jobs[1].center());
    let d59 = home.center().square_distance(&work.jobs[59].center());
    assert!(d0 <= d59);
}

#[test]
fn dispatched_coordinates_are_never_redispatched() {
    let mut m: ChunkManager<u32> = ChunkManager::new(1, 100, 100);
    let mut ready: Vec<(ChunkCoordinates, u32)> = Vec::new();
    let first = m.treadmill(origin(), &|_p: Point| false, &mut ready, &|p: u32| p);
    // radius 1: vertical radius 0, so a 3 x 1 x 3 volume
    assert_eq!(first.jobs.len(), 9);
    let second = m.treadmill(origin(), &|_p: Point| false, &mut ready, &|p: u32| p);
    assert!(second.jobs.is_empty());
    ready.push((first.jobs[0], 10));
    let third = m.treadmill(origin(), &|_p: Point| false, &mut ready, &|p: u32| p);
    assert!(third.jobs.is_empty());
    assert!(m.is_resident(&first.jobs[0]));
    assert!(!m.is_loading(&first.jobs[0]));
    assert_eq!(m.in_flight_len(), 8);
}

#[test]
fn visible_candidate_goes_before_an_equally_far_hidden_one() {
    let mut m: ChunkManager<u32> = ChunkManager::new(4, 60, 8);
    let viewpoint = cc(0, 0, 0).center();
    let a = cc(1, 0, 0);
    let b = cc(-1, 0, 0);
    let visible_a = move |p: Point| p == a.center();
    let jobs = m.dispatch(viewpoint, vec![b, a], &visible_a);
    assert_eq!(jobs, vec![a, b]);
    let mut m2: ChunkManager<u32> = ChunkManager::new(4, 60, 8);
    let visible_b = move |p: Point| p == b.center();
    let jobs2 = m2.dispatch(viewpoint, vec![a, b], &visible_b);
    assert_eq!(jobs2, vec![b, a]);
}

#[test]
fn visible_far_candidate_outranks_hidden_near_one() {
    let mut m: ChunkManager<u32> = ChunkManager::new(4, 1, 8);
    let viewpoint = cc(0, 0, 0).center();
    let near = cc(1, 0, 0);
    let far = cc(3, 0, 0);
    let jobs = m.dispatch(viewpoint, vec![near, far], &move |p: Point| p == far.center());
    assert_eq!(jobs, vec![far]);
    assert_eq!(m.in_flight_len(), 1);
}

#[test]
fn drain_respects_the_per_frame_cap_and_keeps_the_rest() {
    let mut m: ChunkManager<u32> = ChunkManager::new(4, 60, 3);
    let mut ready: Vec<(ChunkCoordinates, u32)> = Vec::new();
    let work = m.treadmill(origin(), &|_p: Point| false, &mut ready, &|p: u32| p);
    for (n, j) in work.jobs.iter().take(10).enumerate() {
        ready.push((*j, n as u32));
    }
    let displaced = m.drain(&mut ready, &|p: u32| p + 100);
    assert!(displaced.is_empty());
    assert_eq!(m.active_len(), 3);
    assert_eq!(ready.len(), 7);
    assert_eq!(ready[0], (work.jobs[3], 3));
    assert_eq!(m.get(&work.jobs[0]), Some(&100));
    assert!(!m.is_loading(&work.jobs[0]));
    assert!(m.is_loading(&work.jobs[3]));
    m.drain(&mut ready, &|p: u32| p);
    assert_eq!(m.active_len(), 6);
    assert_eq!(ready.len(), 4);
    assert_eq!(m.in_flight_len(), 54);
}

#[test]
fn draw_list_is_empty_when_nothing_is_visible() {
    let mut m: ChunkManager<u32> = ChunkManager::new(2, 60, 100);
    let mut ready: Vec<(ChunkCoordinates, u32)> = Vec::new();
    let work = m.treadmill(origin(), &|_p: Point| false, &mut ready, &|p: u32| p);
    for j in work.jobs.iter() {
        ready.push((*j, 0));
    }
    m.drain(&mut ready, &|p: u32| p);
    assert!(m.active_len() > 0);
    assert!(m.draw_list(origin(), &|_p: Point| false).is_empty());
}

#[test]
fn draw_list_keeps_chunks_with_a_visible_corner_nearest_first() {
    let mut m: ChunkManager<u32> = ChunkManager::new(4, 60, 100);
    let a = cc(0, 0, 0);
    let b = cc(2, 0, 0);
    let hidden = cc(-3, 0, 0);
    m.dispatch(origin(), vec![a, b, hidden], &|_p: Point| false);
    let mut ready = vec![(b, 1u32), (hidden, 2), (a, 3)];
    m.drain(&mut ready, &|p: u32| p);
    let seen = |p: Point| p.x >= 0;
    assert_eq!(m.draw_list(origin(), &seen), vec![a, b]);
}

#[test]
fn chunk_leaving_the_volume_is_evicted_and_regenerated_on_return() {
    let mut m: ChunkManager<u32> = ChunkManager::new(1, 100, 100);
    let mut ready: Vec<(ChunkCoordinates, u32)> = Vec::new();
    let work = m.treadmill(origin(), &|_p: Point| false, &mut ready, &|p: u32| p);
    for j in work.jobs.iter() {
        ready.push((*j, 7));
    }
    m.treadmill(origin(), &|_p: Point| false, &mut ready, &|p: u32| p);
    assert_eq!(m.active_len(), 9);
    let target = cc(-1, 0, 0);
    assert!(m.is_resident(&target));
    // move three chunks along +x: everything at x <= 1 leaves the volume
    let away = cc(3, 0, 0).center();
    let moved = m.treadmill(away, &|_p: Point| false, &mut ready, &|p: u32| p);
    assert_eq!(moved.evicted.len(), 9);
    assert!(moved.evicted.iter().any(|e| e.0 == target && e.1 == 7));
    assert!(!m.is_resident(&target));
    // come back: the coordinate is dispatched for generation again
    let back = m.treadmill(origin(), &|_p: Point| false, &mut ready, &|p: u32| p);
    assert!(back.jobs.contains(&target));
    assert!(m.is_loading(&target));
    assert!(!m.is_resident(&target));
    ready.push((target, 8));
    m.treadmill(origin(), &|_p: Point| false, &mut ready, &|p: u32| p);
    assert_eq!(m.get(&target), Some(&8));
}

#[test]
fn evict_keeps_only_the_retention_volume() {
    let mut m: ChunkManager<u32> = ChunkManager::new(3, 60, 100);
    let inside = cc(3, 1, -3);
    let too_high = cc(0, 2, 0);
    let too_far = cc(4, 0, 0);
    m.dispatch(origin(), vec![inside, too_high, too_far], &|_p: Point| false);
    let mut ready = vec![(inside, 1u32), (too_high, 2), (too_far, 3)];
    m.drain(&mut ready, &|p: u32| p);
    let evicted = m.evict(cc(0, 0, 0));
    assert_eq!(evicted.len(), 2);
    assert!(m.is_resident(&inside));
    assert!(!m.is_resident(&too_high));
    assert!(!m.is_resident(&too_far));
}

#[test]
fn complete_moves_a_coordinate_from_flight_to_residence() {
    let mut m: ChunkManager<u32> = ChunkManager::new(2, 60, 100);
    let c = cc(1, 0, 1);
    m.dispatch(origin(), vec![c], &|_p: Point| true);
    assert!(m.is_loading(&c));
    assert_eq!(m.complete(c, 5), None);
    assert!(m.is_resident(&c));
    assert!(!m.is_loading(&c));
    assert_eq!(m.complete(c, 6), Some(5));
    assert_eq!(m.get(&c), Some(&6));
    assert_eq!(m.active_len(), 1);
}
