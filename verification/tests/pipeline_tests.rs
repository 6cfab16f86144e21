use geo::Intersects;
use h3o::{LatLng, Resolution};
use zana::builder::{build_tile, stage_node, stage_path};
use zana::cell_index_to_num;
use zana::coords::GeoCoord;
use zana::partition::{
    partition_step, Partitioner, SplitDecision, MAX_NODES_PER_CELL, MIN_RESOLUTION,
};
use zana::raster::{
    assoc_lookup, find_tag, node_coords, resolve_refs, style_for_path, validate_refs, StyleClass,
};
use zana::roads::paths_from_ways;
use zana::viewport::{cells_to_draw, filter_cells_with_flags, retain_visible};
use zana::{read_zana_data, write_zana_data, DecodeError, StringTable, ZanaObj, ZanaPath};

fn cell_at(lat: f64, lng: f64, res: Resolution) -> u64 {
    cell_index_to_num(LatLng::new(lat, lng).unwrap().to_cell(res))
}

#[test]
fn staged_node_coarse_cell_is_parent_of_fine_cell() {
    let fine = LatLng::new(60.1684, 24.9438).unwrap().to_cell(Resolution::Twelve);
    let cell12 = cell_index_to_num(fine);
    let mut table = StringTable::default();
    let tags = vec![("highway".to_string(), "primary".to_string())];
    let staged = stage_node(17, 601_684_000, 249_438_000, cell12, &tags, &mut table)
        .expect("a valid fine cell stages");
    let expected_cell3 = cell_index_to_num(fine.parent(Resolution::Three).unwrap());
    assert_eq!(staged.cell3, expected_cell3);
    assert_eq!(staged.cell12, cell12);
    assert_eq!(staged.id, 17);
    assert_eq!(staged.tags, vec![(1, 2)]);
}

#[test]
fn staged_path_interns_tags_into_global_table() {
    let mut table = StringTable::default();
    table.intern("building");
    let tags = vec![
        ("building".to_string(), "yes".to_string()),
        ("power".to_string(), "yes".to_string()),
    ];
    let p = stage_path(5, vec![1, 2, 3], &tags, &mut table);
    assert_eq!(p.id, 5);
    assert_eq!(p.nodes, vec![1, 2, 3]);
    assert_eq!(p.tags, vec![(1, 2), (3, 2)]);
    assert_eq!(
        table.inverse(),
        vec!["building".to_string(), "yes".to_string(), "power".to_string()]
    );
}

#[test]
fn cell_with_exactly_the_budget_is_not_split() {
    assert_eq!(partition_step(5, MAX_NODES_PER_CELL), SplitDecision::Emit);
}

#[test]
fn cell_at_min_resolution_is_never_split() {
    assert_eq!(
        partition_step(MIN_RESOLUTION, u64::MAX),
        SplitDecision::Emit
    );
    assert_eq!(partition_step(MIN_RESOLUTION, 0), SplitDecision::Discard);
}

#[test]
fn overfull_cell_splits_into_its_children() {
    let cell5 = cell_at(60.1684, 24.9438, Resolution::Five);
    let mut partitioner = Partitioner::new(vec![]);
    let decision = partitioner.decide(cell5, MAX_NODES_PER_CELL + 1);
    assert_eq!(decision, SplitDecision::Split);
    assert_eq!(partitioner.remaining(), 7);
    // every enqueued child is one resolution finer
    while let Some(child) = partitioner.next_cell() {
        let idx = h3o::CellIndex::try_from(child).unwrap();
        assert_eq!(idx.resolution(), Resolution::Six);
    }
}

#[test]
fn empty_cell_is_discarded_and_emits_no_work() {
    let cell5 = cell_at(51.5, 0.0, Resolution::Five);
    let mut partitioner = Partitioner::new(vec![cell5]);
    assert_eq!(partitioner.next_cell(), Some(cell5));
    assert_eq!(partitioner.decide(cell5, 0), SplitDecision::Discard);
    assert_eq!(partitioner.remaining(), 0);
    assert_eq!(partitioner.next_cell(), None);
}

#[test]
fn tile_with_zero_paths_is_never_written() {
    let lookup: Vec<String> = vec![];
    assert!(build_tile(&vec![], &vec![], &lookup).is_none());
    let st = StringTable::new(vec!["a".to_string(), "b".to_string()]);
    let lookup = st.inverse();
    let some = build_tile(
        &vec![],
        &vec![ZanaPath {
            nodes: vec![],
            tags: vec![(1, 2)],
        }],
        &lookup,
    );
    assert!(some.is_some());
}

fn hex_polygon(cell: u64) -> geo::Polygon<f64> {
    let idx = h3o::CellIndex::try_from(cell).unwrap();
    let ring: Vec<geo::Coord<f64>> = idx
        .boundary()
        .iter()
        .map(|v| geo::Coord {
            x: v.lng(),
            y: v.lat(),
        })
        .collect();
    geo::Polygon::new(geo::LineString::new(ring), vec![])
}

#[test]
fn viewport_keeps_inside_and_straddling_cells_in_order() {
    // A sits inside the box, B straddles its east edge, C is far away.
    let a = cell_at(60.00, 24.00, Resolution::Seven);
    let b = cell_at(60.00, 24.50, Resolution::Seven);
    let c = cell_at(-30.0, -60.0, Resolution::Seven);
    let bbox = geo::Polygon::new(
        geo::LineString::from(vec![
            (23.8, 59.9),
            (24.5, 59.9),
            (24.5, 60.1),
            (23.8, 60.1),
            (23.8, 59.9),
        ]),
        vec![],
    );
    let cells = vec![a, b, c];
    let keep: Vec<bool> = cells
        .iter()
        .map(|cell| bbox.intersects(&hex_polygon(*cell)))
        .collect();
    assert_eq!(keep, vec![true, true, false]);
    assert_eq!(filter_cells_with_flags(&cells, &keep), vec![a, b]);
}

#[test]
fn compose_plans_only_undrawn_cells() {
    assert_eq!(
        cells_to_draw(&vec![1, 2, 3, 4], &vec![2, 9]),
        vec![1, 3, 4]
    );
    assert_eq!(retain_visible(&vec![2, 9, 4], &vec![1, 2, 3, 4]), vec![2, 4]);
}

#[test]
fn style_precedence_follows_the_table() {
    let p = |tags: Vec<(u64, u64)>| ZanaPath {
        nodes: vec![],
        tags,
    };
    assert_eq!(
        style_for_path(&p(vec![(1, 9), (3, 9)]), 1, 2, 3),
        Some(StyleClass::Building)
    );
    assert_eq!(
        style_for_path(&p(vec![(2, 9), (3, 9)]), 1, 2, 3),
        Some(StyleClass::Power)
    );
    assert_eq!(style_for_path(&p(vec![(3, 9)]), 1, 2, 3), Some(StyleClass::Highway));
    assert_eq!(style_for_path(&p(vec![(7, 9)]), 1, 2, 3), None);
}

#[test]
fn find_tag_returns_zero_for_absent_keys() {
    let table = vec![("building".to_string(), 4u64), ("power".to_string(), 2u64)];
    assert_eq!(find_tag(&table, "building"), 4);
    assert_eq!(find_tag(&table, "power"), 2);
    assert_eq!(find_tag(&table, "highway"), 0);
}

#[test]
fn dangling_ref_is_filtered_and_path_still_drawable() {
    let st = StringTable::new(vec!["highway".to_string(), "yes".to_string()]);
    let lookup = st.inverse();
    let bytes = write_zana_data(
        &vec![
            zana::ZanaNode {
                id: 1,
                coords: GeoCoord {
                    decimicro_lat: 10,
                    decimicro_lon: 20,
                },
            },
            zana::ZanaNode {
                id: 2,
                coords: GeoCoord {
                    decimicro_lat: 11,
                    decimicro_lon: 21,
                },
            },
        ],
        &vec![ZanaPath {
            nodes: vec![1, 2, 99],
            tags: vec![(1, 2)],
        }],
        &lookup,
    );
    // decoding succeeds in spite of the dangling ref
    let (_, objects) = read_zana_data(&bytes).expect("decoding tolerates dangling refs");
    // the soft check reports it
    assert!(matches!(
        validate_refs(&objects),
        Err(DecodeError::DanglingRef)
    ));
    // rasterization filters it out and still has two points to stroke
    let pairs = node_coords(&objects);
    let path_refs = objects
        .iter()
        .find_map(|o| match o {
            ZanaObj::Path(p) => Some(p.nodes.clone()),
            _ => None,
        })
        .unwrap();
    let resolved = resolve_refs(&path_refs, &pairs);
    assert_eq!(resolved.len(), 2);
    assert_eq!(resolved[0], GeoCoord { decimicro_lat: 10, decimicro_lon: 20 });
    assert!(assoc_lookup(&pairs, 99).is_none());
}

#[test]
fn roads_join_ways_with_node_coordinates() {
    let ways = vec![vec![1, 2, 7], vec![7], vec![3]];
    let coords = vec![(1i64, (10, 20)), (2, (30, 40)), (3, (50, 60))];
    let paths = paths_from_ways(&ways, &coords);
    assert_eq!(paths.len(), 2);
    assert_eq!(paths[0].points, vec![(10, 20), (30, 40)]);
    assert_eq!(paths[1].points, vec![(50, 60)]);
}

#[test]
fn decimicro_degree_conversion_round_trips() {
    // truncation toward zero preserves every stored decimicro coordinate
    for dm in [0i32, 1, -1, 601_684_000, -900_000_000, 900_000_000] {
        let degrees = dm as f64 / 1e7;
        assert_eq!((degrees * 1e7) as i32, dm);
    }
}
