use stadt_terrain::config::TerrainConfig;

#[test]
fn test_default_config() {
    let config = TerrainConfig::default();
    assert_eq!(config.chunk_size, 100);
    assert_eq!(config.render_distance, 50);
}

#[test]
fn test_builder() {
    let config = TerrainConfig::builder()
        .chunk_size(200)
        .render_distance(100)
        .max_height(500)
        .build();

    assert_eq!(config.chunk_size, 200);
    assert_eq!(config.render_distance, 100);
    assert_eq!(config.max_height, 500);
}

#[test]
fn test_builder_all_fields() {
    let config = TerrainConfig::builder()
        .water_level(20)
        .mountain_threshold(700)
        .warp_strength(80)
        .skirt_depth(60)
        .lod_distances([100, 200, 400])
        .lod_subdivisions([128, 64, 32, 16])
        .max_concurrent_tasks(4)
        .lod_hysteresis(100)
        .max_quadtree_depth(6)
        .build();

    assert_eq!(config.water_level, 20);
    assert_eq!(config.mountain_threshold, 700);
    assert_eq!(config.warp_strength, 80);
    assert_eq!(config.skirt_depth, 60);
    assert_eq!(config.lod_distances, [100, 200, 400]);
    assert_eq!(config.lod_subdivisions, [128, 64, 32, 16]);
    assert_eq!(config.max_concurrent_tasks, 4);
    assert_eq!(config.lod_hysteresis, 100);
    assert_eq!(config.max_quadtree_depth, 6);
}
