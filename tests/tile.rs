use iris::tile::{
    run_single_worker, single_worker_schedule, Assignment, TileData, TileQueue, TileScheduler,
    SAMPLE_CHUNK_SIZE,
};

fn all_tiles(width: usize, height: usize, spp: usize) -> Vec<TileData> {
    let mut v = Vec::new();
    let mut idx = 0;
    while let Some(t) = TileData::new(width, height, spp, idx) {
        v.push(t);
        idx += 1;
    }
    v
}

#[test]
fn tiles_of_square_image() {
    let t0 = TileData::new(512, 512, 100, 0).unwrap();
    assert_eq!((t0.pixel_x, t0.pixel_y, t0.width, t0.height), (0, 0, 64, 64));
    assert_eq!(t0.distance_sq_from_center, 100_352);
    assert_eq!(t0.remaining_samples, 100);
    let t27 = TileData::new(512, 512, 100, 27).unwrap();
    assert_eq!((t27.pixel_x, t27.pixel_y), (192, 192));
    assert_eq!(t27.distance_sq_from_center, 2048);
    assert!(TileData::new(512, 512, 100, 63).is_some());
    assert!(TileData::new(512, 512, 100, 64).is_none());
}

#[test]
fn tiles_clipped_at_image_border() {
    let tiles = all_tiles(11, 7, 1);
    assert_eq!(tiles.len(), 42);
    let t5 = tiles[5];
    assert_eq!((t5.pixel_x, t5.pixel_y, t5.width, t5.height), (10, 0, 1, 1));
}

#[test]
fn tiny_and_empty_images() {
    assert_eq!(all_tiles(3, 3, 1).len(), 9);
    assert_eq!(all_tiles(1, 1, 1).len(), 1);
    assert!(TileData::new(0, 5, 1, 0).is_none());
    assert!(TileData::new(5, 0, 1, 0).is_none());
}

#[test]
fn every_pixel_in_exactly_one_tile() {
    for (w, h) in [(11usize, 7usize), (512, 512), (300, 130), (5, 9), (257, 3)] {
        let tiles = all_tiles(w, h, 1);
        let mut count = vec![0u32; w * h];
        for t in &tiles {
            for i in 0..t.width * t.height {
                let (x, y) = t.pixel_of(i);
                count[y * w + x] += 1;
            }
        }
        assert!(count.iter().all(|&c| c == 1));
    }
}

#[test]
fn take_chunk_bounds_the_chunk() {
    let mut t = TileData::new(64, 64, 45, 0).unwrap();
    assert_eq!(t.take_chunk(SAMPLE_CHUNK_SIZE), 20);
    assert_eq!(t.remaining_samples, 25);
    assert_eq!(t.take_chunk(SAMPLE_CHUNK_SIZE), 20);
    assert_eq!(t.take_chunk(SAMPLE_CHUNK_SIZE), 5);
    assert_eq!(t.remaining_samples, 0);
    assert_eq!(t.take_chunk(SAMPLE_CHUNK_SIZE), 0);
}

#[test]
fn priority_prefers_needier_then_central_tiles() {
    let a = TileData::new(512, 512, 10, 0).unwrap();
    let b = TileData::new(512, 512, 10, 27).unwrap();
    assert!(b.has_priority_over(&a));
    assert!(!a.has_priority_over(&b));
    let mut c = a;
    c.remaining_samples = 11;
    assert!(c.has_priority_over(&b));
    assert!(!b.has_priority_over(&b));
}

#[test]
fn queue_pops_center_first() {
    let mut q = TileQueue::for_image(512, 512, 4);
    assert_eq!(q.len(), 64);
    let first = q.pop().unwrap();
    assert_eq!(first.distance_sq_from_center, 2048);
    assert_eq!(q.len(), 63);
    let mut empty = TileQueue::new();
    assert!(empty.is_empty());
    assert!(empty.pop().is_none());
}

#[test]
fn requeue_retires_finished_tiles() {
    let mut q = TileQueue::new();
    let mut t = TileData::new(8, 8, 1, 0).unwrap();
    assert!(q.requeue(t));
    t.remaining_samples = 0;
    assert!(!q.requeue(t));
    assert_eq!(q.len(), 1);
    q.push(t);
    assert_eq!(q.len(), 2);
}

#[test]
fn single_worker_one_sample_renders_each_pixel_once() {
    let (w, h) = (300usize, 130usize);
    let tiles = all_tiles(w, h, 1);
    let mut q = TileQueue::for_image(w, h, 1);
    let log = run_single_worker(&mut q, SAMPLE_CHUNK_SIZE);
    assert!(q.is_empty());
    assert_eq!(log.len(), tiles.len());
    let mut evaluations = 0;
    let mut seen = vec![false; tiles.len()];
    for &(idx, samples) in &log {
        assert_eq!(samples, 1);
        assert!(!seen[idx]);
        seen[idx] = true;
        evaluations += tiles[idx].width * tiles[idx].height * samples;
    }
    assert_eq!(evaluations, w * h);
}

#[test]
fn single_worker_splits_samples_into_chunks() {
    let mut q = TileQueue::for_image(8, 8, 45);
    let n = q.len();
    let log = run_single_worker(&mut q, SAMPLE_CHUNK_SIZE);
    assert!(q.is_empty());
    assert_eq!(log.len(), 3 * n);
    let total: usize = log.iter().map(|&(_, s)| s).sum();
    assert_eq!(total, 45 * n);
    assert!(log[..n].iter().all(|&(_, s)| s == 20));
}

#[test]
fn write_to_frame_touches_only_the_tile() {
    let t = TileData::new(8, 8, 1, 3).unwrap();
    let mut frame = vec![0u32; 64];
    let pixels: Vec<u32> = (1..=(t.width * t.height) as u32).collect();
    t.write_to_frame(&mut frame, 8, &pixels);
    for y in 0..8 {
        for x in 0..8 {
            let inside = x >= t.pixel_x
                && x < t.pixel_x + t.width
                && y >= t.pixel_y
                && y < t.pixel_y + t.height;
            let v = frame[y * 8 + x];
            if inside {
                assert_eq!(v as usize, (y - t.pixel_y) * t.width + (x - t.pixel_x) + 1);
            } else {
                assert_eq!(v, 0);
            }
        }
    }
}

#[test]
fn scheduler_waits_for_tiles_in_flight() {
    let mut s = TileScheduler::new(4, 4, 30, SAMPLE_CHUNK_SIZE);
    let n = s.queue.len();
    let mut held = Vec::new();
    for _ in 0..n {
        match s.acquire() {
            Assignment::Render { tile, first_sample, samples } => {
                assert_eq!(first_sample, 0);
                assert_eq!(samples, 20);
                assert_eq!(tile.remaining_samples, 10);
                held.push(tile);
            }
            other => panic!("expected work, got {:?}", other),
        }
    }
    assert_eq!(s.acquire(), Assignment::Wait);
    for t in held.drain(..) {
        s.release(t);
    }
    assert_eq!(s.queue.len(), n);
    let mut rounds = 0;
    loop {
        match s.acquire() {
            Assignment::Render { tile, first_sample, samples } => {
                assert_eq!(first_sample, 20);
                assert_eq!(samples, 10);
                s.release(tile);
                rounds += 1;
            }
            Assignment::Wait => panic!("nothing is in flight"),
            Assignment::Done => break,
        }
    }
    assert_eq!(rounds, n);
    assert_eq!(s.in_flight, 0);
}

#[test]
fn single_worker_schedule_one_pass() {
    let (w, h) = (97usize, 61usize);
    let log = single_worker_schedule(w, h, 1, SAMPLE_CHUNK_SIZE);
    let tiles = all_tiles(w, h, 1);
    assert_eq!(log.len(), tiles.len());
    let mut count = vec![0u32; w * h];
    for &(idx, samples) in &log {
        assert_eq!(samples, 1);
        let t = tiles[idx];
        for i in 0..t.width * t.height {
            let (x, y) = t.pixel_of(i);
            count[y * w + x] += 1;
        }
    }
    assert!(count.iter().all(|&c| c == 1));
}

#[test]
fn single_worker_schedule_many_samples() {
    let log = single_worker_schedule(16, 16, 50, SAMPLE_CHUNK_SIZE);
    let n = all_tiles(16, 16, 50).len();
    let mut per_tile = vec![0usize; n];
    for &(idx, samples) in &log {
        assert!(samples >= 1 && samples <= SAMPLE_CHUNK_SIZE);
        per_tile[idx] += samples;
    }
    assert!(per_tile.iter().all(|&s| s == 50));
}

#[test]
fn chunk_calls_cover_each_pixel_and_sample() {
    let t = TileData::new(11, 7, 45, 5).unwrap();
    let calls = t.chunk_calls(20, 3);
    assert_eq!(calls.len(), t.width * t.height * 3);
    assert_eq!(calls[0], (t.pixel_x, t.pixel_y, 20));
    assert_eq!(calls[2], (t.pixel_x, t.pixel_y, 22));
    let big = TileData::new(512, 512, 1, 0).unwrap();
    let once = big.chunk_calls(0, 1);
    assert_eq!(once.len(), 64 * 64);
    let mut seen = vec![false; 64 * 64];
    for &(x, y, s) in &once {
        assert_eq!(s, 0);
        assert!(!seen[y * 64 + x]);
        seen[y * 64 + x] = true;
    }
    assert!(seen.iter().all(|&b| b));
}
