use bincode::Options;
use delta_encoding::{DeltaDecoderExt, DeltaEncoderExt};
use zana::codec::{decode_tile_bytes, encode_record};
use zana::coords::GeoCoord;
use zana::delta::{delta_decode_i32, delta_decode_i64, delta_encode_i32, delta_encode_i64};
use zana::{
    read_zana_data, write_zana_data, DecodeError, StringTable, ZanaDenseData, ZanaDenseNodes,
    ZanaDensePaths, ZanaNode, ZanaObj, ZanaPath,
};

fn node(id: i64) -> ZanaNode {
    ZanaNode {
        id,
        coords: GeoCoord {
            decimicro_lat: 5 + id as i32,
            decimicro_lon: 6,
        },
    }
}

#[test]
fn smoke_test_string_table() {
    let mut t = StringTable::default();
    assert_eq!(t.intern("a"), 1);
    assert_eq!(t.intern("b"), 2);
    assert_eq!(t.intern("a"), 1);

    assert_eq!(
        t.get_map(),
        vec![("a".to_string(), 1), ("b".to_string(), 2)]
    )
}

#[test]
fn smoke_test_read_write() {
    let st = StringTable::new(vec!["map".to_string(), "q3dm5".to_string()]);
    let lookup = st.inverse();

    let output = write_zana_data(
        &vec![node(1), node(2), node(3)],
        &vec![ZanaPath {
            nodes: vec![1, 2, 3],
            tags: vec![(1, 2)],
        }],
        &lookup,
    );
    let (string_table, objects) = read_zana_data(&output).expect("round trip decodes");

    let mut table_rows: Vec<String> = string_table
        .iter()
        .map(|(k, v)| format!("{k}:{v}"))
        .collect();
    table_rows.sort();
    assert_eq!(table_rows, vec!["map:1".to_string(), "q3dm5:2".to_string()]);

    assert_eq!(objects.len(), 4);
    for (i, expected_id) in [(0usize, 1i64), (1, 2), (2, 3)] {
        match &objects[i] {
            ZanaObj::Node(n) => {
                assert_eq!(n.id, expected_id);
                assert_eq!(n.coords.decimicro_lat, 5 + expected_id as i32);
                assert_eq!(n.coords.decimicro_lon, 6);
            }
            other => panic!("expected a node, got {other:?}"),
        }
    }
    match &objects[3] {
        ZanaObj::Path(p) => {
            assert_eq!(p.nodes, vec![1, 2, 3]);
            assert_eq!(p.tags, vec![(1, 2)]);
        }
        other => panic!("expected a path, got {other:?}"),
    }
}

#[test]
fn intern_never_returns_zero_and_inverse_matches() {
    let mut t = StringTable::default();
    assert_eq!(t.intern("a"), 1);
    assert_eq!(t.intern("b"), 2);
    assert_eq!(t.intern("a"), 1);
    let inverse = t.inverse();
    assert_eq!(inverse, vec!["a".to_string(), "b".to_string()]);
}

#[test]
fn string_table_diff_yields_new_rows() {
    let mut t = StringTable::default();
    t.intern("a");
    t.intern("b");
    t.intern("c");
    let mut prior = StringTable::default();
    prior.intern("b");
    let d = t.diff(prior);
    assert_eq!(d, vec![("a".to_string(), 1), ("c".to_string(), 3)]);
}

#[test]
fn delta_edge() {
    let deltas = delta_encode_i64(&vec![5, 5, 5]);
    assert_eq!(deltas, vec![5, 0, 0]);
    assert_eq!(delta_decode_i64(&deltas), vec![5, 5, 5]);
}

#[test]
fn delta_round_trip_extremes() {
    let values: Vec<i64> = vec![i64::MIN, i64::MAX, 0, -1, 42];
    assert_eq!(delta_decode_i64(&delta_encode_i64(&values)), values);
    let values32: Vec<i32> = vec![i32::MIN, i32::MAX, 0, -7];
    assert_eq!(delta_decode_i32(&delta_encode_i32(&values32)), values32);
}

#[test]
fn delta_matches_reference_encoder() {
    let values: Vec<i64> = vec![1, 2, 5, 4, 2];
    let reference: Vec<i64> = values.iter().copied().deltas().collect();
    assert_eq!(delta_encode_i64(&values), reference);
    let restored: Vec<i64> = reference.iter().copied().original().collect();
    assert_eq!(delta_decode_i64(&reference), restored);
}

fn sample_record() -> ZanaDenseData {
    ZanaDenseData {
        nodes: ZanaDenseNodes {
            dids: vec![1, -3, 300_000],
            dlats: vec![7, -100_000],
            dlons: vec![2],
        },
        paths: ZanaDensePaths {
            dids: vec![],
            dnodes: vec![vec![5, -2], vec![]],
            tags: vec![1, 2, 0, 3],
        },
        string_table: vec![("map".to_string(), 1), ("p\u{e4}th".to_string(), 2)],
    }
}

#[test]
fn record_bytes_match_reference_serializer() {
    let mine = encode_record(&sample_record());
    let equivalent = (
        (
            vec![1i64, -3, 300_000],
            vec![7i32, -100_000],
            vec![2i32],
        ),
        (
            Vec::<i64>::new(),
            vec![vec![5i64, -2], vec![]],
            vec![1u64, 2, 0, 3],
        ),
        vec![("map".to_string(), 1u64), ("p\u{e4}th".to_string(), 2u64)],
    );
    let theirs = bincode::DefaultOptions::new()
        .serialize(&equivalent)
        .expect("reference serializer accepts the record");
    assert_eq!(mine, theirs);
}

#[test]
fn tile_parses_with_reference_readers() {
    let st = StringTable::new(vec!["highway".to_string(), "primary".to_string()]);
    let lookup = st.inverse();
    let bytes = write_zana_data(
        &vec![node(1), node(2), node(3)],
        &vec![ZanaPath {
            nodes: vec![1, 2, 3],
            tags: vec![(1, 2)],
        }],
        &lookup,
    );
    // the tile opens with the LZ4 frame magic
    assert_eq!(&bytes[0..4], &[0x04, 0x22, 0x4D, 0x18]);
    let mut frame = lz4_flex::frame::FrameDecoder::new(&bytes[..]);
    type Wire = (
        (Vec<i64>, Vec<i32>, Vec<i32>),
        (Vec<i64>, Vec<Vec<i64>>, Vec<u64>),
        Vec<(String, u64)>,
    );
    let parsed: Wire = bincode::DefaultOptions::new()
        .deserialize_from(&mut frame)
        .expect("reference readers accept the tile");
    assert_eq!(parsed.0 .0, vec![1, 1, 1]);
    assert_eq!(parsed.0 .1, vec![6, 1, 1]);
    assert_eq!(parsed.0 .2, vec![6, 0, 0]);
    assert_eq!(parsed.1 .1, vec![vec![1, 1, 1]]);
    assert_eq!(parsed.1 .2, vec![1, 2]);
    assert_eq!(
        parsed.2,
        vec![("highway".to_string(), 1), ("primary".to_string(), 2)]
    );
}

#[test]
fn local_table_never_holds_zero() {
    let st = StringTable::new(vec![
        "building".to_string(),
        "yes".to_string(),
        "power".to_string(),
    ]);
    let lookup = st.inverse();
    let bytes = write_zana_data(
        &vec![node(1), node(2)],
        &vec![
            ZanaPath {
                nodes: vec![1, 2],
                tags: vec![(1, 2), (3, 2)],
            },
            ZanaPath {
                nodes: vec![2, 1],
                tags: vec![(1, 2)],
            },
        ],
        &lookup,
    );
    let (table, objects) = read_zana_data(&bytes).unwrap();
    let size = table.len() as u64;
    for (_, id) in &table {
        assert_ne!(*id, 0);
        assert!(*id <= size);
    }
    for obj in &objects {
        if let ZanaObj::Path(p) = obj {
            for (k, v) in &p.tags {
                assert_ne!(*k, 0);
                assert_ne!(*v, 0);
                assert!(*k <= size && *v <= size);
            }
        }
    }
}

#[test]
fn truncated_input_is_rejected() {
    assert!(matches!(
        read_zana_data(&vec![1, 2, 3]),
        Err(DecodeError::Truncated)
    ));
    assert!(matches!(
        decode_tile_bytes(&vec![253, 1]),
        Err(DecodeError::Truncated)
    ));
}

#[test]
fn out_of_range_coordinate_is_a_bad_delta() {
    let rec = ZanaDenseData {
        nodes: ZanaDenseNodes {
            dids: vec![1],
            dlats: vec![2_000_000_000],
            dlons: vec![0],
        },
        paths: ZanaDensePaths {
            dids: vec![],
            dnodes: vec![],
            tags: vec![],
        },
        string_table: vec![],
    };
    let plain = encode_record(&rec);
    assert!(matches!(
        decode_tile_bytes(&plain),
        Err(DecodeError::BadDelta)
    ));
}

#[test]
fn empty_tile_round_trips() {
    let bytes = write_zana_data(&vec![], &vec![], &vec![]);
    let (table, objects) = read_zana_data(&bytes).unwrap();
    assert!(table.is_empty());
    assert!(objects.is_empty());
}
