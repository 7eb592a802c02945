use rustpg::streaming::ChunkCoord;
use rustpg::streaming::ChunkState;
use rustpg::streaming::ChunkStreamer;
use rustpg::streaming::chunk_window;
use rustpg::streaming::viewpoint_chunk;

#[test]
fn window_radius_two_has_25_coordinates() {
    let win = chunk_window(ChunkCoord { x: 0, y: 0 }, 2);
    assert_eq!(win.len(), 25);
    for x in -2..=2 {
        for y in -2..=2 {
            assert!(win.contains(&ChunkCoord { x, y }), "missing ({x},{y})");
        }
    }
    for c in &win {
        assert!((-2..=2).contains(&c.x) && (-2..=2).contains(&c.y));
    }
}

#[test]
fn window_is_centered() {
    let win = chunk_window(ChunkCoord { x: 7, y: -4 }, 1);
    assert_eq!(win.len(), 9);
    for dx in -1..=1 {
        for dy in -1..=1 {
            assert!(win.contains(&ChunkCoord { x: 7 + dx, y: -4 + dy }));
        }
    }
}

#[test]
fn viewpoint_maps_to_chunk_coordinates() {
    assert_eq!(viewpoint_chunk(0, 0, 256), ChunkCoord { x: 0, y: 0 });
    assert_eq!(viewpoint_chunk(127, 0, 256), ChunkCoord { x: 0, y: 0 });
    assert_eq!(viewpoint_chunk(128, 0, 256), ChunkCoord { x: 1, y: 0 });
    assert_eq!(viewpoint_chunk(-129, 0, 256), ChunkCoord { x: -1, y: 0 });
    // The depth axis is negated.
    assert_eq!(viewpoint_chunk(0, 128, 256), ChunkCoord { x: 0, y: -1 });
    assert_eq!(viewpoint_chunk(0, -129, 256), ChunkCoord { x: 0, y: 1 });
}

#[test]
fn streaming_lifecycle() {
    let mut streamer = ChunkStreamer::new(2, 256);
    let origin = ChunkCoord { x: 0, y: 0 };

    // First registration queues the whole window.
    let queued = streamer.update_viewpoint(origin);
    assert_eq!(queued.len(), 25);
    for c in &queued {
        assert_eq!(streamer.lookup(*c), Some(ChunkState::Queued));
    }
    assert_eq!(streamer.lookup(ChunkCoord { x: 3, y: 0 }), None);

    // Same viewpoint again: nothing new.
    assert_eq!(streamer.update_viewpoint(origin).len(), 0);

    // Queued -> Generating -> Resident.
    let c0 = queued[0];
    assert!(streamer.begin_generation(c0));
    assert_eq!(streamer.lookup(c0), Some(ChunkState::Generating));
    assert!(!streamer.begin_generation(c0));
    assert!(streamer.complete(c0));
    assert_eq!(streamer.lookup(c0), Some(ChunkState::Resident));
    assert!(!streamer.complete(c0));

    // A completion may also arrive without an explicit start.
    let c1 = queued[1];
    assert!(streamer.complete(c1));
    assert_eq!(streamer.lookup(c1), Some(ChunkState::Resident));
}

#[test]
fn moving_viewpoint_queues_new_column_and_names_evictees() {
    let mut streamer = ChunkStreamer::new(2, 256);
    let queued = streamer.update_viewpoint(ChunkCoord { x: 0, y: 0 });
    for c in &queued {
        assert!(streamer.complete(*c));
    }

    // One step east: five new coordinates enter the window.
    let fresh = streamer.update_viewpoint(ChunkCoord { x: 1, y: 0 });
    assert_eq!(fresh.len(), 5);
    for y in -2..=2 {
        assert!(fresh.contains(&ChunkCoord { x: 3, y }));
    }

    // The westmost resident column is now an eviction candidate.
    let evictees = streamer.eviction_candidates();
    assert_eq!(evictees.len(), 5);
    for y in -2..=2 {
        assert!(evictees.contains(&ChunkCoord { x: -2, y }));
    }

    // Eviction forgets the chunk; queued chunks are not evictable.
    assert!(streamer.evict(ChunkCoord { x: -2, y: 0 }));
    assert_eq!(streamer.lookup(ChunkCoord { x: -2, y: 0 }), None);
    assert!(!streamer.evict(ChunkCoord { x: 3, y: 0 }));
}
