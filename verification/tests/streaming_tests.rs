use stadt_terrain::config::TerrainConfig;
use stadt_terrain::heightmap::ProceduralHeightmap;
use stadt_terrain::quadtree::{SelectedNode, TerrainQuadtree};
use stadt_terrain::streaming::{MeshRequest, MeshResult, TerrainStreaming};

fn request(id: u64, priority: u64) -> MeshRequest {
    MeshRequest {
        node_id: id,
        center_x: 0,
        center_z: 0,
        size: 100,
        lod: 0,
        priority,
        coords: (0, 0),
    }
}

fn result(id: u64) -> MeshResult {
    MeshResult {
        node_id: id,
        center_x: 0,
        center_z: 0,
        lod: 0,
        coords: (0, 0),
    }
}

fn selected(id: u64, center_x: i64, center_z: i64, half: i64) -> SelectedNode {
    SelectedNode {
        id,
        center_x,
        center_z,
        half_size: half,
        lod_level: 0,
        coords: (0, 0),
        entity: None,
    }
}

#[test]
fn test_queue_request_dedup() {
    let mut s = TerrainStreaming::new();
    s.queue_request(request(7, 10));
    s.queue_request(request(7, 99));
    assert_eq!(s.pending.len(), 1);
    assert_eq!(s.pending[0].priority, 10);
}

#[test]
fn test_queue_request_skips_spawned_and_in_flight() {
    let mut s = TerrainStreaming::new();
    s.register_spawned(3, 1001);
    s.queue_request(request(3, 5));
    assert_eq!(s.pending.len(), 0);

    s.queue_request(request(4, 5));
    let dispatched = s.admit_requests(8);
    assert_eq!(dispatched.len(), 1);
    s.queue_request(request(4, 5));
    assert_eq!(s.pending.len(), 0);
}

#[test]
fn test_admission_respects_priority_and_limit() {
    let mut s = TerrainStreaming::new();
    s.queue_request(request(1, 300));
    s.queue_request(request(2, 100));
    s.queue_request(request(3, 200));

    let dispatched = s.admit_requests(2);
    assert_eq!(dispatched.len(), 2);
    assert_eq!(dispatched[0].node_id, 2);
    assert_eq!(dispatched[1].node_id, 3);
    assert_eq!(s.in_flight.len(), 2);
    assert_eq!(s.pending.len(), 1);
    assert_eq!(s.pending[0].node_id, 1);

    // Admission never pushes the in-flight set above the limit.
    let dispatched = s.admit_requests(2);
    assert_eq!(dispatched.len(), 0);
    assert_eq!(s.in_flight.len(), 2);
}

#[test]
fn test_admission_skips_regions_spawned_meanwhile() {
    let mut s = TerrainStreaming::new();
    s.queue_request(request(9, 50));
    s.register_spawned(9, 2001);
    let dispatched = s.admit_requests(4);
    assert_eq!(dispatched.len(), 0);
    assert_eq!(s.pending.len(), 0);
    assert_eq!(s.in_flight.len(), 0);
}

#[test]
fn test_completion_round_trip() {
    let mut s = TerrainStreaming::new();
    s.queue_request(request(5, 10));
    let dispatched = s.admit_requests(1);
    assert_eq!(dispatched.len(), 1);
    assert!(s.record_completed(result(5)));
    assert_eq!(s.in_flight.len(), 0);
    assert!(!s.record_completed(result(5)));
    let done = s.take_completed();
    assert_eq!(done.len(), 1);
    assert_eq!(done[0].node_id, 5);
    assert_eq!(s.completed.len(), 0);
}

#[test]
fn test_subdivision_transition_scenario() {
    // Region id 5 (child of root id 1) is selected while id 1 is spawned and
    // id 5 is not: id 1 stays spawned and waits for {5}; once id 5 spawns,
    // id 1 is despawned and the wait disappears.
    let mut s = TerrainStreaming::new();
    s.register_spawned(1, 42);
    assert!(s.is_spawned(1));

    let sel = vec![selected(5, -25, -25, 25)];
    s.sync_selection(&sel, 0, 0);

    assert!(s.is_spawned(1));
    assert_eq!(s.waiting_for_children.len(), 1);
    assert_eq!(s.waiting_for_children[0].0, 1);
    assert_eq!(s.waiting_for_children[0].1, vec![5]);

    s.register_spawned(5, 43);

    assert!(!s.is_spawned(1));
    assert!(s.is_spawned(5));
    assert!(s.waiting_for_children.is_empty());
}

#[test]
fn test_merge_transition_scenario() {
    // Children 5..8 are spawned; the parent 1 becomes selected. Each child
    // waits for the parent; when the parent spawns, the children go away.
    let mut s = TerrainStreaming::new();
    for id in 5..=8u64 {
        s.register_spawned(id, 100 + id);
    }

    let sel = vec![selected(1, 0, 0, 100)];
    s.sync_selection(&sel, 0, 0);

    for id in 5..=8u64 {
        assert!(s.is_spawned(id), "child {} stays visible until the parent arrives", id);
    }
    assert_eq!(s.waiting_for_parent.len(), 4);
    for e in &s.waiting_for_parent {
        assert_eq!(e.1, 1);
    }

    s.register_spawned(1, 42);

    assert!(s.is_spawned(1));
    for id in 5..=8u64 {
        assert!(!s.is_spawned(id));
    }
    assert!(s.waiting_for_parent.is_empty());
}

#[test]
fn test_out_of_view_removal() {
    // Spawned regions with neither children nor parent selected are removed
    // in one step, along with any waits on them.
    let mut s = TerrainStreaming::new();
    s.register_spawned(2, 7);
    s.register_spawned(70, 8);
    s.register_spawned(71, 9);
    let sel: Vec<SelectedNode> = Vec::new();
    s.sync_selection(&sel, 0, 0);
    assert!(!s.is_spawned(2));
    assert!(!s.is_spawned(70));
    assert!(!s.is_spawned(71));
    assert!(s.spawned.is_empty());
    assert!(s.waiting_for_children.is_empty());
    assert!(s.waiting_for_parent.is_empty());
}

#[test]
fn test_sync_enqueues_unspawned_with_planar_priority() {
    let mut s = TerrainStreaming::new();
    let sel = vec![selected(11, 30, -40, 25), selected(12, 0, 0, 25)];
    s.sync_selection(&sel, 0, 0);
    assert_eq!(s.pending.len(), 2);
    assert_eq!(s.pending[0].node_id, 11);
    assert_eq!(s.pending[0].priority, 30 * 30 + 40 * 40);
    assert_eq!(s.pending[1].node_id, 12);
    assert_eq!(s.pending[1].priority, 0);
}

#[test]
fn test_waits_never_orphaned() {
    // After an arbitrary little run, every waiting-for-children entry still
    // waits for someone, and every waiting-for-parent entry names a parent
    // that is not spawned.
    let mut s = TerrainStreaming::new();
    s.register_spawned(1, 1);
    s.register_spawned(2, 2);
    for id in 9..=12u64 {
        s.register_spawned(id, 100 + id);
    }
    let sel = vec![selected(5, -25, -25, 25), selected(2, 200, 0, 100), selected(1, 0, 0, 100)];
    s.sync_selection(&sel, 0, 0);
    s.register_spawned(5, 55);

    for e in &s.waiting_for_children {
        assert!(!e.1.is_empty());
    }
    for e in &s.waiting_for_parent {
        assert!(!s.is_spawned(e.1));
    }
}

#[test]
fn test_teleport_drops_everything_in_one_step() {
    let config = TerrainConfig::builder()
        .chunk_size(64)
        .render_distance(2)
        .lod_distances([100, 200, 400])
        .max_quadtree_depth(2)
        .build();
    let oracle = ProceduralHeightmap::new(0, 0, 0);
    let mut tree = TerrainQuadtree::new(2, 512);
    let mut s = TerrainStreaming::new();

    // One full step near the origin: select, diff, admit, complete, spawn.
    tree.update(0, 30, 0, &config, &oracle);
    let sel = tree.collect_selected_nodes();
    s.sync_selection(&sel, 0, 0);
    let mut handle = 0u64;
    loop {
        let dispatched = s.admit_requests(config.max_concurrent_tasks);
        if dispatched.is_empty() {
            break;
        }
        for request in dispatched {
            assert!(s.record_completed(result(request.node_id)));
        }
        for done in s.take_completed() {
            handle += 1;
            s.register_spawned(done.node_id, handle);
        }
    }
    let spawned_before: Vec<u64> = s.spawned.iter().map(|e| e.0).collect();
    assert!(!spawned_before.is_empty());

    // Teleport far away: the whole old neighborhood leaves the selection.
    // Region ids are only unique within a subtree, so an old region whose id
    // range collides with the new neighborhood's ids can be held briefly as
    // a transition stand-in; everything else is dropped at once, and every
    // wait that remains is live (non-empty, naming an unspawned parent).
    let far = 512 * 200;
    tree.update(far, 30, far, &config, &oracle);
    let sel = tree.collect_selected_nodes();
    s.sync_selection(&sel, far, far);

    let sel_ids: Vec<u64> = sel.iter().map(|n| n.id).collect();
    for id in &spawned_before {
        if s.is_spawned(*id) {
            let still_selected = sel_ids.contains(id);
            let waiting = s.waiting_for_children.iter().any(|e| e.0 == *id)
                || s.waiting_for_parent.iter().any(|e| e.0 == *id);
            assert!(
                still_selected || waiting,
                "region {} survived the teleport without reason",
                id
            );
        }
    }
    for e in &s.waiting_for_children {
        assert!(!e.1.is_empty());
    }
    for e in &s.waiting_for_parent {
        assert!(!s.is_spawned(e.1));
    }
}
