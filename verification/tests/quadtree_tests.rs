use stadt_terrain::config::TerrainConfig;
use stadt_terrain::heightmap::{HeightmapSource, ProceduralHeightmap};
use stadt_terrain::quadtree::{calculate_lod_with_hysteresis, QuadtreeNode, SelectedNode, TerrainQuadtree};

#[test]
fn test_quadtree_node_creation() {
    let node = QuadtreeNode::new(1, 0, 0, 100, 0, (0, 0));

    assert_eq!(node.id, 1);
    assert_eq!(node.depth, 0);
    assert!(node.is_leaf());
}

#[test]
fn test_quadtree_subdivision() {
    let mut node = QuadtreeNode::new(1, 0, 0, 100, 0, (0, 0));
    let mut next_id = 1;

    node.subdivide(&mut next_id);

    assert!(!node.is_leaf());
    assert!(node.children.is_some());

    if let Some(children) = &node.children {
        for child in [&children.nw, &children.ne, &children.sw, &children.se] {
            assert!(child.size() < node.size());
        }
    }
}

#[test]
fn test_quadtree_subdivision_ids_and_bounds() {
    let mut node = QuadtreeNode::new(3, 0, 0, 100, 0, (0, 0));
    let mut next_id = 12;

    node.subdivide(&mut next_id);
    assert_eq!(next_id, 16);

    let children = node.children.as_ref().unwrap();
    assert_eq!(children.nw.id, 13);
    assert_eq!(children.ne.id, 14);
    assert_eq!(children.sw.id, 15);
    assert_eq!(children.se.id, 16);

    assert_eq!((children.nw.center_x, children.nw.center_z), (-50, -50));
    assert_eq!((children.ne.center_x, children.ne.center_z), (50, -50));
    assert_eq!((children.sw.center_x, children.sw.center_z), (-50, 50));
    assert_eq!((children.se.center_x, children.se.center_z), (50, 50));
    assert_eq!(children.nw.half_size, 50);
    assert_eq!(children.nw.depth, 1);
    assert_eq!(children.nw.coords, (0, 0));
    assert_eq!(children.se.coords, (1, 1));
}

#[test]
fn test_distance_calculation() {
    let node = QuadtreeNode::new(1, 100, 100, 50, 0, (0, 0));

    let distance_sq = node.distance_to_camera(0, 100, 0, 0);

    // Camera is outside the region, so the squared distance is positive:
    // closest corner (50, 0, 50), camera (0, 100, 0).
    assert!(distance_sq > 0);
    assert_eq!(distance_sq, 50 * 50 + 100 * 100 + 50 * 50);
}

#[test]
fn test_distance_inside_region_is_vertical_only() {
    let node = QuadtreeNode::new(1, 0, 0, 100, 0, (0, 0));
    let distance_sq = node.distance_to_camera(10, 25, -20, 5);
    // Planar components are zero inside the footprint; only height remains.
    assert_eq!(distance_sq, 20 * 20);
}

#[test]
fn test_update_selects_and_prunes() {
    let config = TerrainConfig::builder()
        .chunk_size(64)
        .render_distance(4)
        .lod_distances([100, 200, 400])
        .max_quadtree_depth(3)
        .build();
    let oracle = ProceduralHeightmap::new(0, 0, 0);
    let mut tree = TerrainQuadtree::new(3, 512);

    tree.update(0, 50, 0, &config, &oracle);
    let selected = tree.collect_selected_nodes();
    assert!(!selected.is_empty());

    // Every selected region id can be found again in the forest. (Ids are
    // only unique within a subtree, so the first match may be another node
    // that shares the id.)
    for node in &selected {
        let found = tree.find_node(node.id).expect("selected id must be in the forest");
        assert_eq!(found.id, node.id);
    }

    // Teleport far away: the old roots around the origin are dropped.
    let far = 512 * 100;
    tree.update(far, 50, far, &config, &oracle);
    for e in &tree.roots {
        assert!((e.coords.0 as i64) >= 90);
        assert!((e.coords.1 as i64) >= 90);
    }
}

#[test]
fn test_selection_partitions_the_plane() {
    let config = TerrainConfig::builder()
        .chunk_size(64)
        .render_distance(4)
        .lod_distances([100, 200, 400])
        .max_quadtree_depth(3)
        .build();
    let oracle = ProceduralHeightmap::new(0, 0, 0);
    let mut tree = TerrainQuadtree::new(3, 512);
    tree.update(0, 10, 0, &config, &oracle);

    let selected: Vec<SelectedNode> = tree.collect_selected_nodes();

    // Sample many points near the camera: each must fall in exactly one
    // selected region (regions are half-open on their east/south edges).
    let mut px = -500i64;
    while px < 500 {
        let mut pz = -500i64;
        while pz < 500 {
            let mut count = 0;
            for node in &selected {
                let in_x = node.center_x - node.half_size <= px && px < node.center_x + node.half_size;
                let in_z = node.center_z - node.half_size <= pz && pz < node.center_z + node.half_size;
                if in_x && in_z {
                    count += 1;
                }
            }
            assert_eq!(count, 1, "point ({}, {}) covered {} times", px, pz, count);
            pz += 37;
        }
        px += 37;
    }
}

#[test]
fn test_selection_deterministic() {
    let config = TerrainConfig::default();
    let oracle = ProceduralHeightmap::new(5, 1, -1);
    let mut tree_a = TerrainQuadtree::new(4, 800);
    let mut tree_b = TerrainQuadtree::new(4, 800);

    tree_a.update(123, 40, -456, &config, &oracle);
    tree_b.update(123, 40, -456, &config, &oracle);

    let sel_a = tree_a.collect_selected_nodes();
    let sel_b = tree_b.collect_selected_nodes();
    assert_eq!(sel_a.len(), sel_b.len());
    for (a, b) in sel_a.iter().zip(sel_b.iter()) {
        assert_eq!(a.id, b.id);
        assert_eq!(a.lod_level, b.lod_level);
    }

    // Re-running with the same camera changes nothing (idempotence).
    tree_a.update(123, 40, -456, &config, &oracle);
    let sel_a2 = tree_a.collect_selected_nodes();
    assert_eq!(sel_a.len(), sel_a2.len());
    for (a, b) in sel_a.iter().zip(sel_a2.iter()) {
        assert_eq!(a.id, b.id);
        assert_eq!(a.lod_level, b.lod_level);
    }
}

#[test]
fn test_camera_proximity_deepens_selection() {
    let config = TerrainConfig::builder()
        .lod_distances([300, 1000, 2500])
        .max_quadtree_depth(6)
        .build();
    let oracle = ProceduralHeightmap::new(0, 0, 0);

    let mut near_tree = TerrainQuadtree::new(6, 1024);
    near_tree.update(0, 0, 0, &config, &oracle);
    let near_max = near_tree
        .collect_selected_nodes()
        .iter()
        .map(|n| n.lod_level)
        .min()
        .unwrap();

    let mut high_tree = TerrainQuadtree::new(6, 1024);
    high_tree.update(0, 2400, 0, &config, &oracle);
    let far_ids: Vec<u64> = high_tree.collect_selected_nodes().iter().map(|n| n.id).collect();

    // With the camera on the ground the finest tier is reached; from high up
    // the same cells are selected much coarser (fewer, larger regions).
    assert_eq!(near_max, 0);
    assert!(far_ids.len() < near_tree.collect_selected_nodes().len());
}

#[test]
fn test_id_arithmetic_round_trip() {
    // Children of p are 4p+1..=4p+4 and (child - 1) / 4 recovers p.
    for p in [1u64, 2, 3, 4, 5, 17, 123_456] {
        for offset in 1u64..=4 {
            let child = 4 * p + offset;
            assert!(child > 4);
            assert_eq!((child - 1) / 4, p);
        }
    }
}

#[test]
fn test_lod_with_hysteresis_exact_values() {
    let config = TerrainConfig::default();
    // Thresholds [300, 1000, 2500], hysteresis 150 per-mille.
    // At the finest tier (64), dropping detail needs distance >= 345.
    assert_eq!(calculate_lod_with_hysteresis(340, 64, &config), 64);
    assert_eq!(calculate_lod_with_hysteresis(344, 64, &config), 64);
    assert_eq!(calculate_lod_with_hysteresis(345, 64, &config), 32);
    // At tier 32, regaining the finest tier needs distance < 255.
    assert_eq!(calculate_lod_with_hysteresis(300, 32, &config), 32);
    assert_eq!(calculate_lod_with_hysteresis(254, 32, &config), 64);
    // Far beyond every threshold the coarsest tier wins.
    assert_eq!(calculate_lod_with_hysteresis(1_000_000, 64, &config), 8);
}

#[test]
fn test_procedural_heightmap() {
    let heightmap = ProceduralHeightmap::new(0, 1, 1);
    assert_eq!(heightmap.sample(1, 2), 3);
}

#[test]
fn test_find_node_mut_edits_in_place() {
    let config = TerrainConfig::builder()
        .chunk_size(64)
        .render_distance(2)
        .lod_distances([100, 200, 400])
        .max_quadtree_depth(2)
        .build();
    let oracle = ProceduralHeightmap::new(0, 0, 0);
    let mut tree = TerrainQuadtree::new(2, 512);
    tree.update(0, 30, 0, &config, &oracle);

    let id = tree.collect_selected_nodes()[0].id;
    let node = tree.find_node_mut(id).expect("selected id must be in the forest");
    node.entity = Some(77);

    let found = tree.find_node(id).expect("still in the forest");
    assert_eq!(found.entity, Some(77));
}

#[test]
fn test_default_forest_partitions_the_plane() {
    let config = TerrainConfig::builder()
        .lod_distances([150, 300, 600])
        .build();
    let oracle = ProceduralHeightmap::new(0, 0, 0);
    let mut tree = TerrainQuadtree::default();
    tree.update(0, 5, 0, &config, &oracle);

    let selected: Vec<SelectedNode> = tree.collect_selected_nodes();

    // The default root size halves exactly through the whole depth budget,
    // so even the deepest selected regions abut with no ring and no overlap.
    let mut px = -700i64;
    while px < 700 {
        let mut pz = -700i64;
        while pz < 700 {
            let mut count = 0;
            for node in &selected {
                let in_x = node.center_x - node.half_size <= px && px < node.center_x + node.half_size;
                let in_z = node.center_z - node.half_size <= pz && pz < node.center_z + node.half_size;
                if in_x && in_z {
                    count += 1;
                }
            }
            assert_eq!(count, 1, "point ({}, {}) covered {} times", px, pz, count);
            pz += 23;
        }
        px += 23;
    }
}
