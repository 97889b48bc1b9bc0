use vector_tile_core::feature::{Feature, GeometryType, PropValue, WorldPoint};
use vector_tile_core::mvt_encoder::{
    command_integer, encode_geometry, encode_tile, zigzag_decode, zigzag_encode, GeomType,
};
use vector_tile_core::projection::{get_tile_count, world_to_local, world_to_tile};
use vector_tile_core::tiler::{tile_features, TileFeature, TileGeometry};
use vector_tile_core::{generate_tiles, TileCoord, TileError};

/// World coordinates of a longitude and latitude in degrees.
fn world(lon: f64, lat: f64) -> WorldPoint {
    let size = (1u64 << 43) as f64;
    let x = (lon + 180.0) / 360.0 * size;
    let lat_rad = lat.to_radians();
    let y = (1.0 - (lat_rad.tan() + 1.0 / lat_rad.cos()).ln() / std::f64::consts::PI) / 2.0 * size;
    WorldPoint { x: x.round() as i64, y: y.round() as i64 }
}

fn point_feature(lon: f64, lat: f64, props: Vec<(String, PropValue)>) -> Feature {
    Feature { geometry: GeometryType::Point(world(lon, lat)), properties: props }
}

/// One field of a protocol-buffer message: number and either a varint or
/// the bytes of a length-delimited or fixed field.
#[derive(Debug, Clone, PartialEq)]
enum Field {
    Varint(u32, u64),
    Bytes(u32, Vec<u8>),
}

fn read_varint(b: &[u8], pos: &mut usize) -> u64 {
    let mut v: u64 = 0;
    let mut shift = 0;
    loop {
        let byte = b[*pos];
        *pos += 1;
        v |= ((byte & 0x7f) as u64) << shift;
        if byte < 0x80 {
            return v;
        }
        shift += 7;
    }
}

fn fields(b: &[u8]) -> Vec<Field> {
    let mut out = Vec::new();
    let mut pos = 0;
    while pos < b.len() {
        let key = read_varint(b, &mut pos);
        let number = (key >> 3) as u32;
        match key & 7 {
            0 => out.push(Field::Varint(number, read_varint(b, &mut pos))),
            1 => {
                out.push(Field::Bytes(number, b[pos..pos + 8].to_vec()));
                pos += 8;
            }
            2 => {
                let len = read_varint(b, &mut pos) as usize;
                out.push(Field::Bytes(number, b[pos..pos + len].to_vec()));
                pos += len;
            }
            w => panic!("unexpected wire type {}", w),
        }
    }
    out
}

fn packed(b: &[u8]) -> Vec<u32> {
    let mut out = Vec::new();
    let mut pos = 0;
    while pos < b.len() {
        out.push(read_varint(b, &mut pos) as u32);
    }
    out
}

fn bytes_of(fs: &[Field], number: u32) -> Vec<Vec<u8>> {
    fs.iter()
        .filter_map(|f| match f {
            Field::Bytes(n, b) if *n == number => Some(b.clone()),
            _ => None,
        })
        .collect()
}

/// The single layer of an encoded tile.
fn layer_of(tile: &[u8]) -> Vec<Field> {
    let top = fields(tile);
    assert_eq!(top.len(), 1);
    let layers = bytes_of(&top, 3);
    assert_eq!(layers.len(), 1);
    fields(&layers[0])
}

fn tile_point_at(x: i32, y: i32, props: Vec<(String, PropValue)>) -> TileFeature {
    TileFeature { geometry: TileGeometry::Point(x, y), properties: props }
}

#[test]
fn test_tile_coord() {
    let coord = TileCoord::new(5, 10, 12);
    assert_eq!(coord.to_path(), "5/10/12.pbf");
}

#[test]
fn test_tile_count() {
    assert_eq!(get_tile_count(0), 1);
    assert_eq!(get_tile_count(1), 2);
    assert_eq!(get_tile_count(2), 4);
    assert_eq!(get_tile_count(5), 32);
}

#[test]
fn test_tile_point() {
    let feature = point_feature(139.7671, 35.6812, Vec::new());
    let tiles = tile_features(&[feature], 5);
    assert_eq!(tiles.len(), 1);
}

#[test]
fn tile_count_is_power_of_two_up_to_zoom_twenty() {
    for z in 0u8..20 {
        assert_eq!(get_tile_count(z), 1u32 << z);
    }
    assert_eq!(get_tile_count(31), 1u32 << 31);
}

#[test]
fn zigzag_round_trip() {
    for n in [0, 1, -1, 2, -2, 4095, -4096, i32::MAX, i32::MIN] {
        assert_eq!(zigzag_decode(zigzag_encode(n)), n);
    }
    assert_eq!(zigzag_encode(0), 0);
    assert_eq!(zigzag_encode(-1), 1);
    assert_eq!(zigzag_encode(1), 2);
    assert_eq!(zigzag_encode(-2), 3);
    assert_eq!(zigzag_encode(i32::MAX), u32::MAX - 1);
    assert_eq!(zigzag_encode(i32::MIN), u32::MAX);
}

#[test]
fn command_integer_packs_id_and_count() {
    assert_eq!(command_integer(1, 1), 9);
    assert_eq!(command_integer(2, 3), 26);
    assert_eq!(command_integer(7, 1), 15);
}

#[test]
fn zoom_zero_is_single_tile() {
    for (lon, lat) in [(0.0, 0.0), (-179.9, 85.0), (179.9, -85.0), (139.7671, 35.6812)] {
        let p = world(lon, lat);
        assert_eq!(world_to_tile(p.x, 0), 0);
        assert_eq!(world_to_tile(p.y, 0), 0);
    }
    // Beyond the Mercator square the index is clamped.
    assert_eq!(world_to_tile(-5, 3), 0);
    assert_eq!(world_to_tile(1i64 << 44, 3), 7);
}

#[test]
fn world_coordinates_reproject_exactly() {
    // At zoom 31 one tile-local unit is one world unit.
    assert_eq!(world_to_tile(4096 * 3 + 5, 31), 3);
    assert_eq!(world_to_local(4096 * 3 + 5, 3, 31), 5);
    // At zoom 30 a unit is two world units; halves round up.
    assert_eq!(world_to_local(4097, 0, 30), 2049);
    assert_eq!(world_to_local(-3, 0, 30), -1);
    // A vertex far from the tile saturates at the range of i32.
    assert_eq!(world_to_local(i64::MAX, 0, 31), i32::MAX);
    // Eastern hemisphere at zoom 1.
    assert_eq!(world_to_tile(world(90.0, 0.0).x, 1), 1);
}

#[test]
fn tokyo_point_at_zoom_five() {
    let feature = point_feature(139.7671, 35.6812, Vec::new());
    let tiles = tile_features(&[feature], 5);
    assert_eq!(tiles.len(), 1);
    assert_eq!(tiles[0].coord, TileCoord::new(5, 28, 12));
    assert_eq!(tiles[0].features.len(), 1);
    let (kind, cmds) = encode_geometry(&tiles[0].features[0].geometry).unwrap();
    assert_eq!(kind, GeomType::Point);
    assert_eq!(cmds.len(), 3);
    assert_eq!(cmds[0], command_integer(1, 1));
    match tiles[0].features[0].geometry {
        TileGeometry::Point(x, y) => {
            assert!((0..=4096).contains(&x) && (0..=4096).contains(&y));
            assert_eq!(cmds[1], zigzag_encode(x));
            assert_eq!(cmds[2], zigzag_encode(y));
        }
        _ => panic!("expected a point"),
    }
    let data = encode_tile(&tiles[0].features, "layer").unwrap();
    let features = bytes_of(&layer_of(&data), 2);
    assert_eq!(features.len(), 1);
    let geometry = bytes_of(&fields(&features[0]), 4);
    assert_eq!(packed(&geometry[0]), cmds);
}

#[test]
fn line_appears_in_every_tile_of_its_rectangle() {
    let span: i64 = 1 << 41; // a tile side at zoom 2
    let line = vec![
        WorldPoint { x: span / 2, y: span / 2 },
        WorldPoint { x: span * 5 / 2, y: span / 2 },
        WorldPoint { x: span * 5 / 2, y: span * 3 / 2 },
    ];
    let feature = Feature { geometry: GeometryType::LineString(line), properties: Vec::new() };
    let tiles = tile_features(&[feature], 2);
    let coords: Vec<(u32, u32)> = tiles.iter().map(|b| (b.coord.x, b.coord.y)).collect();
    assert_eq!(coords, vec![(0, 0), (0, 1), (1, 0), (1, 1), (2, 0), (2, 1)]);
    for b in &tiles {
        assert_eq!(b.features.len(), 1);
        match &b.features[0].geometry {
            TileGeometry::LineString(c) => {
                assert_eq!(c.len(), 3);
                let dx = 4096 * b.coord.x as i32;
                let dy = 4096 * b.coord.y as i32;
                assert_eq!(c[0], (2048 - dx, 2048 - dy));
                assert_eq!(c[2], (10240 - dx, 6144 - dy));
            }
            _ => panic!("expected a line"),
        }
    }
}

#[test]
fn polygon_holes_follow_exterior_and_do_not_widen() {
    let span: i64 = 1 << 42; // a tile side at zoom 1
    let ring = |x0: i64, y0: i64, x1: i64, y1: i64| {
        vec![
            WorldPoint { x: x0, y: y0 },
            WorldPoint { x: x1, y: y0 },
            WorldPoint { x: x1, y: y1 },
            WorldPoint { x: x0, y: y0 },
        ]
    };
    let exterior = ring(span / 4, span / 4, span * 3 / 4, span * 3 / 4);
    let hole = ring(span / 4, span / 4, span * 3, span * 3);
    let feature = Feature {
        geometry: GeometryType::Polygon(exterior, vec![hole]),
        properties: Vec::new(),
    };
    let tiles = tile_features(&[feature], 1);
    assert_eq!(tiles.len(), 1);
    match &tiles[0].features[0].geometry {
        TileGeometry::Polygon(rings) => {
            assert_eq!(rings.len(), 2);
            assert_eq!(rings[0].len(), 4);
            assert_eq!(rings[1].len(), 4);
            assert_eq!(rings[1][2], (4096 * 3, 4096 * 3));
        }
        _ => panic!("expected a polygon"),
    }
}

#[test]
fn empty_geometries_are_skipped() {
    let features = vec![
        Feature { geometry: GeometryType::LineString(Vec::new()), properties: Vec::new() },
        Feature { geometry: GeometryType::Polygon(Vec::new(), Vec::new()), properties: Vec::new() },
    ];
    assert!(tile_features(&features, 3).is_empty());
    assert_eq!(generate_tiles(&features, 0, 3, "l").unwrap().len(), 0);
}

#[test]
fn features_keep_input_order_within_a_tile() {
    let a = Feature {
        geometry: GeometryType::Point(WorldPoint { x: 10, y: 10 }),
        properties: vec![("n".to_string(), PropValue::Int(1))],
    };
    let b = Feature {
        geometry: GeometryType::Point(WorldPoint { x: 20, y: 20 }),
        properties: vec![("n".to_string(), PropValue::Int(2))],
    };
    let tiles = tile_features(&[a, b], 4);
    assert_eq!(tiles.len(), 1);
    match (&tiles[0].features[0].properties[0].1, &tiles[0].features[1].properties[0].1) {
        (PropValue::Int(1), PropValue::Int(2)) => {}
        other => panic!("unexpected order {:?}", other),
    }
}

#[test]
fn encoding_an_empty_tile_fails() {
    assert_eq!(encode_tile(&[], "layer"), Err(TileError::EmptyFeatureSet));
    assert_eq!(generate_tiles(&[], 0, 2, "layer").err(), Some(TileError::EmptyFeatureSet));
}

#[test]
fn encoding_an_empty_geometry_fails() {
    let empty_line = TileFeature { geometry: TileGeometry::LineString(Vec::new()), properties: Vec::new() };
    assert_eq!(encode_tile(&[tile_point_at(1, 2, Vec::new()), empty_line], "l"), Err(TileError::EmptyGeometry));
    let empty_polygon = TileGeometry::Polygon(Vec::new());
    assert_eq!(encode_geometry(&empty_polygon).err(), Some(TileError::EmptyGeometry));
}

#[test]
fn encodes_a_point_tile_exactly() {
    let data = encode_tile(&[tile_point_at(1, 2, Vec::new())], "l").unwrap();
    let layer = vec![
        0x0a, 0x01, b'l', // name
        0x12, 0x09, 0x08, 0x00, 0x18, 0x01, 0x22, 0x03, 0x09, 0x02, 0x04, // feature
        0x28, 0x80, 0x20, // extent 4096
        0x78, 0x02, // version 2
    ];
    let mut expected = vec![0x1a, layer.len() as u8];
    expected.extend(layer);
    assert_eq!(data, expected);
}

#[test]
fn encodes_values_of_each_type() {
    let props = vec![
        ("s".to_string(), PropValue::Str("é".to_string())),
        ("i".to_string(), PropValue::Int(-1)),
        ("d".to_string(), PropValue::Double(1.5f64.to_bits())),
        ("b".to_string(), PropValue::Bool(true)),
        ("n".to_string(), PropValue::Other),
    ];
    let data = encode_tile(&[tile_point_at(0, 0, props)], "l").unwrap();
    let layer = layer_of(&data);
    let keys = bytes_of(&layer, 3);
    assert_eq!(keys, vec![b"s".to_vec(), b"i".to_vec(), b"d".to_vec(), b"b".to_vec(), b"n".to_vec()]);
    let values: Vec<Vec<Field>> = bytes_of(&layer, 4).iter().map(|v| fields(v)).collect();
    assert_eq!(values[0], vec![Field::Bytes(1, "é".as_bytes().to_vec())]);
    assert_eq!(values[1], vec![Field::Varint(4, u64::MAX)]);
    assert_eq!(values[2], vec![Field::Bytes(3, 1.5f64.to_le_bytes().to_vec())]);
    assert_eq!(values[3], vec![Field::Varint(7, 1)]);
    assert_eq!(values[4], Vec::new());
    let feature = fields(&bytes_of(&layer, 2)[0]);
    assert_eq!(packed(&bytes_of(&feature, 2)[0]), vec![0, 0, 1, 1, 2, 2, 3, 3, 4, 4]);
}

#[test]
fn shared_properties_share_dictionary_entries() {
    let props = |v: &str, n: i64| {
        vec![
            ("name".to_string(), PropValue::Str(v.to_string())),
            ("rank".to_string(), PropValue::Int(n)),
        ]
    };
    let features = vec![
        tile_point_at(1, 1, props("a", 1)),
        tile_point_at(2, 2, props("a", 2)),
        tile_point_at(3, 3, vec![("rank".to_string(), PropValue::Int(1))]),
    ];
    let data = encode_tile(&features, "l").unwrap();
    let layer = layer_of(&data);
    assert_eq!(bytes_of(&layer, 3).len(), 2);
    assert_eq!(bytes_of(&layer, 4).len(), 3);
    let tags: Vec<Vec<u32>> = bytes_of(&layer, 2)
        .iter()
        .map(|f| packed(&bytes_of(&fields(f), 2)[0]))
        .collect();
    assert_eq!(tags, vec![vec![0, 0, 1, 1], vec![0, 0, 1, 2], vec![1, 1]]);
    let ids: Vec<Field> = bytes_of(&layer, 2).iter().map(|f| fields(f)[0].clone()).collect();
    assert_eq!(ids, vec![Field::Varint(1, 0), Field::Varint(1, 1), Field::Varint(1, 2)]);
}

#[test]
fn values_of_different_types_are_distinct_entries() {
    let features = vec![tile_point_at(
        1,
        1,
        vec![
            ("a".to_string(), PropValue::Str(String::new())),
            ("b".to_string(), PropValue::Other),
            ("c".to_string(), PropValue::Int(1)),
            ("d".to_string(), PropValue::Bool(true)),
        ],
    )];
    let layer = layer_of(&encode_tile(&features, "l").unwrap());
    assert_eq!(bytes_of(&layer, 4).len(), 4);
}

#[test]
fn ring_of_four_vertices_is_kept() {
    let ring = vec![(0, 0), (10, 0), (10, 10), (0, 0)];
    let (kind, cmds) = encode_geometry(&TileGeometry::Polygon(vec![ring])).unwrap();
    assert_eq!(kind, GeomType::Polygon);
    assert_eq!(cmds, vec![9, 0, 0, command_integer(2, 2), 20, 0, 0, 20, 15]);
}

#[test]
fn ring_of_three_vertices_is_dropped() {
    let exterior = vec![(0, 0), (10, 0), (10, 10), (0, 0)];
    let short = vec![(1, 1), (2, 2), (1, 1)];
    let (_, cmds) = encode_geometry(&TileGeometry::Polygon(vec![exterior, short.clone()])).unwrap();
    assert_eq!(cmds.len(), 9);
    let (_, only_short) = encode_geometry(&TileGeometry::Polygon(vec![short])).unwrap();
    assert!(only_short.is_empty());
}

#[test]
fn line_commands_use_deltas() {
    let line = TileGeometry::LineString(vec![(5, 5), (3, 8), (3, 8)]);
    let (kind, cmds) = encode_geometry(&line).unwrap();
    assert_eq!(kind, GeomType::Linestring);
    assert_eq!(cmds, vec![9, 10, 10, command_integer(2, 2), 3, 6, 0, 0]);
    let single = TileGeometry::LineString(vec![(-1, 2)]);
    assert_eq!(encode_geometry(&single).unwrap().1, vec![9, 1, 4]);
}

#[test]
fn single_point_gives_one_tile_per_zoom() {
    let feature = point_feature(139.7671, 35.6812, vec![("name".to_string(), PropValue::Str("Tokyo".to_string()))]);
    let files = generate_tiles(&[feature], 0, 2, "places").unwrap();
    let paths: Vec<&str> = files.iter().map(|f| f.path.as_str()).collect();
    assert_eq!(paths, vec!["0/0/0.pbf", "1/1/0.pbf", "2/3/1.pbf"]);
    for f in &files {
        let layer = layer_of(&f.data);
        assert_eq!(bytes_of(&layer, 1), vec![b"places".to_vec()]);
        assert_eq!(bytes_of(&layer, 2).len(), 1);
    }
}

#[test]
fn zoom_range_in_reverse_gives_nothing() {
    let feature = point_feature(0.0, 0.0, Vec::new());
    assert_eq!(generate_tiles(&[feature], 3, 2, "l").unwrap().len(), 0);
}
