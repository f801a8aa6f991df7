use std::io::Write;

use rustc_serialize::base64::{ToBase64, STANDARD};
use tiled::data::{decode_tile_text, decode_tiles};
use tiled::objects::Object as Shape;
use tiled::{parse, Object, Orientation, TileMap, TiledError};

fn zlib_base64(bytes: &[u8]) -> String {
    let mut enc = flate2::write::ZlibEncoder::new(Vec::new(), flate2::Compression::default());
    enc.write_all(bytes).unwrap();
    enc.finish().unwrap().to_base64(STANDARD)
}

fn grid_bytes(grid: &[Vec<u32>]) -> Vec<u8> {
    let mut out = Vec::new();
    for row in grid {
        for v in row {
            out.extend_from_slice(&v.to_le_bytes());
        }
    }
    out
}

fn map_doc(width: u32, height: u32, body: &str) -> String {
    format!(
        "<?xml version=\"1.0\" encoding=\"UTF-8\"?>\n<map version=\"1.0\" orientation=\"orthogonal\" width=\"{}\" height=\"{}\" tilewidth=\"32\" tileheight=\"32\">\n{}\n</map>\n",
        width, height, body
    )
}

fn layer_doc(name: &str, payload: &str) -> String {
    format!(
        "<layer name=\"{}\" width=\"3\" height=\"2\">\n  <data encoding=\"base64\" compression=\"zlib\">\n   {}\n  </data>\n </layer>",
        name, payload
    )
}

fn parse_str(doc: &str) -> Result<TileMap, TiledError> {
    parse(doc.as_bytes())
}

fn object_group(body: &str) -> String {
    format!("<objectgroup name=\"shapes\">{}</objectgroup>", body)
}

#[test]
fn full_map_layers_have_height_rows_of_width() {
    let grid = vec![vec![1, 2, 3], vec![4, 5, 6]];
    let doc = map_doc(3, 2, &layer_doc("ground", &zlib_base64(&grid_bytes(&grid))));
    let map = parse_str(&doc).unwrap();
    assert_eq!(map.version, "1.0");
    assert_eq!(map.orientation, Orientation::Orthogonal);
    assert_eq!((map.width, map.height, map.tile_width, map.tile_height), (3, 2, 32, 32));
    assert_eq!(map.layers.len(), 1);
    let layer = &map.layers[0];
    assert_eq!(layer.name, "ground");
    assert!(layer.visible);
    assert_eq!(layer.opacity, None);
    assert_eq!(layer.tiles.len(), 2);
    assert!(layer.tiles.iter().all(|r| r.len() == 3));
    assert!(map.background_colour.is_none());
}

#[test]
fn tile_data_round_trip() {
    let grid: Vec<Vec<u32>> = vec![vec![0, 1, 0xFFFF_FFFF], vec![0x8000_0001, 42, 7], vec![3, 2, 1]];
    let doc = map_doc(3, 3, &layer_doc("l", &zlib_base64(&grid_bytes(&grid))));
    let map = parse_str(&doc).unwrap();
    assert_eq!(map.layers[0].tiles, grid);
}

#[test]
fn tile_text_decodes_and_drops_short_row() {
    let ids: Vec<u32> = vec![5, 6, 7, 8, 9];
    let bytes = grid_bytes(&[ids]);
    let text = format!("\n  {}  \n", zlib_base64(&bytes));
    let g = decode_tile_text(&text, 2).unwrap();
    assert_eq!(g, vec![vec![5, 6], vec![7, 8]]);
}

#[test]
fn decode_tiles_reads_little_endian() {
    let b = [1u8, 0, 0, 0, 0, 1, 0, 0, 0xff, 0xff, 0xff, 0xff, 9];
    assert_eq!(decode_tiles(&b, 3), vec![vec![1, 256, 0xFFFF_FFFF]]);
    assert_eq!(decode_tiles(&b, 0), Vec::<Vec<u32>>::new());
    assert_eq!(decode_tiles(&b, 4), Vec::<Vec<u32>>::new());
}

#[test]
fn bad_base64_is_a_decoding_error() {
    assert!(matches!(decode_tile_text("@@@@", 2), Err(TiledError::DecodingError(_))));
}

#[test]
fn non_zlib_bytes_are_a_decompressing_error() {
    let text = [1u8, 2, 3, 4, 5, 6].to_base64(STANDARD);
    assert!(matches!(decode_tile_text(&text, 2), Err(TiledError::DecompressingError(_))));
}

#[test]
fn gzip_compression_is_unsupported() {
    let body = "<layer name=\"l\"><data encoding=\"base64\" compression=\"gzip\">AAAA</data></layer>";
    let r = parse_str(&map_doc(1, 1, body));
    assert!(matches!(r, Err(TiledError::Other(_))));
}

#[test]
fn data_without_compression_is_malformed() {
    let body = "<layer name=\"l\"><data encoding=\"base64\">AAAA</data></layer>";
    let r = parse_str(&map_doc(1, 1, body));
    assert!(matches!(r, Err(TiledError::MalformedAttributes(_))));
}

#[test]
fn empty_data_gives_empty_grid() {
    let body = "<layer name=\"l\"><data encoding=\"base64\" compression=\"zlib\"></data></layer>";
    let map = parse_str(&map_doc(2, 2, body)).unwrap();
    assert!(map.layers[0].tiles.is_empty());
}

#[test]
fn tileset_by_gid_uses_strictly_smaller_first_gid() {
    let body = "<tileset firstgid=\"1\" name=\"a\" tilewidth=\"32\" tileheight=\"32\"><image source=\"a.png\" width=\"64\" height=\"64\"/></tileset>\n<tileset firstgid=\"50\" name=\"b\" tilewidth=\"16\" tileheight=\"16\" spacing=\"2\"></tileset>";
    let map = parse_str(&map_doc(1, 1, body)).unwrap();
    assert_eq!(map.tilesets.len(), 2);
    assert_eq!(map.tilesets[0].images.len(), 1);
    assert_eq!(map.tilesets[0].images[0].source, "a.png");
    assert_eq!(map.tilesets[1].spacing, 2);
    assert_eq!(map.tilesets[1].margin, 0);
    assert_eq!(map.get_tileset_by_gid(50).unwrap().name, "a");
    assert_eq!(map.get_tileset_by_gid(51).unwrap().name, "b");
    assert_eq!(map.get_tileset_by_gid(2).unwrap().name, "a");
    assert!(map.get_tileset_by_gid(1).is_none());
    assert!(map.get_tileset_by_gid(0).is_none());
}

#[test]
fn tileset_without_firstgid_is_malformed() {
    let body = "<tileset name=\"a\" tilewidth=\"32\" tileheight=\"32\"></tileset>";
    let r = parse_str(&map_doc(1, 1, body));
    assert!(matches!(r, Err(TiledError::MalformedAttributes(_))));
}

#[test]
fn map_with_bad_orientation_is_malformed() {
    let doc = "<map version=\"1.0\" orientation=\"hexagonal\" width=\"1\" height=\"1\" tilewidth=\"8\" tileheight=\"8\"></map>";
    assert!(matches!(parse_str(doc), Err(TiledError::MalformedAttributes(_))));
}

#[test]
fn document_without_map_ends_prematurely() {
    assert!(matches!(parse_str("<other></other>"), Err(TiledError::PrematureEnd(_))));
}

#[test]
fn unclosed_map_ends_prematurely() {
    let doc = "<map version=\"1.0\" orientation=\"isometric\" width=\"1\" height=\"1\" tilewidth=\"8\" tileheight=\"8\">";
    assert!(matches!(parse_str(doc), Err(TiledError::PrematureEnd(_))));
}

#[test]
fn map_reads_background_and_properties() {
    let doc = "<map version=\"1.2\" orientation=\"Staggered\" width=\"4\" height=\"5\" tilewidth=\"8\" tileheight=\"9\" backgroundcolor=\"#102030\"><properties><property name=\"k\" value=\"1\"/><property name=\"j\" value=\"2\"/><property name=\"k\" value=\"3\"/></properties></map>";
    let map = parse_str(doc).unwrap();
    assert_eq!(map.orientation, Orientation::Staggered);
    let c = map.background_colour.unwrap();
    assert_eq!((c.red, c.green, c.blue), (0x10, 0x20, 0x30));
    assert_eq!(map.properties.len(), 2);
    assert_eq!(map.properties.get("k").unwrap(), "3");
    assert_eq!(map.properties.get("j").unwrap(), "2");
    assert!(map.properties.get("z").is_none());
}

#[test]
fn property_without_value_is_malformed() {
    let doc = "<map version=\"1\" orientation=\"orthogonal\" width=\"1\" height=\"1\" tilewidth=\"8\" tileheight=\"8\"><properties><property name=\"k\"/></properties></map>";
    assert!(matches!(parse_str(doc), Err(TiledError::MalformedAttributes(_))));
}

#[test]
fn rect_object_keeps_size_and_visibility() {
    let body = object_group("<object x=\"3\" y=\"-4\" width=\"10\" height=\"20\"/><object x=\"0\" y=\"0\" width=\"1\" height=\"2\" visible=\"false\"/>");
    let map = parse_str(&map_doc(1, 1, &body)).unwrap();
    let group = &map.object_groups[0];
    assert_eq!(group.name, "shapes");
    assert!(group.visible);
    match &group.objects[0] {
        Object::Rect { x, y, width, height, visible } => {
            assert_eq!((*x, *y, *width, *height, *visible), (3, -4, 10, 20, true))
        }
        other => panic!("expected a rect, got {:?}", other),
    }
    match &group.objects[1] {
        Object::Rect { visible, .. } => assert!(!*visible),
        other => panic!("expected a rect, got {:?}", other),
    }
}

#[test]
fn polygon_points_keep_order() {
    let body = object_group("<object x=\"1\" y=\"2\"><polygon points=\"0,0 10,0 10,10\"/></object>");
    let map = parse_str(&map_doc(1, 1, &body)).unwrap();
    match &map.object_groups[0].objects[0] {
        Shape::Polygon { x, y, points, visible } => {
            assert_eq!((*x, *y, *visible), (1, 2, true));
            assert_eq!(points, &vec![(0, 0), (10, 0), (10, 10)]);
        }
        other => panic!("expected a polygon, got {:?}", other),
    }
}

#[test]
fn polyline_and_ellipse_objects() {
    let body = object_group("<object x=\"1\" y=\"2\"><polyline points=\"-1,2 3,-4\"/></object><object x=\"5\" y=\"6\" width=\"7\" height=\"8\"><ellipse/></object>");
    let map = parse_str(&map_doc(1, 1, &body)).unwrap();
    let objs = &map.object_groups[0].objects;
    assert!(matches!(&objs[0], Object::Polyline { points, .. } if points == &vec![(-1, 2), (3, -4)]));
    assert!(matches!(objs[1], Object::Ellipse { x: 5, y: 6, width: 7, height: 8, visible: true }));
}

#[test]
fn ellipse_without_size_is_malformed() {
    let body = object_group("<object x=\"1\" y=\"2\"><ellipse/></object>");
    assert!(matches!(parse_str(&map_doc(1, 1, &body)), Err(TiledError::MalformedAttributes(_))));
}

#[test]
fn object_without_shape_or_size_is_malformed() {
    let body = object_group("<object x=\"1\" y=\"2\" width=\"3\"/>");
    assert!(matches!(parse_str(&map_doc(1, 1, &body)), Err(TiledError::MalformedAttributes(_))));
}

#[test]
fn object_without_y_is_malformed() {
    let body = object_group("<object x=\"1\" width=\"3\" height=\"3\"/>");
    assert!(matches!(parse_str(&map_doc(1, 1, &body)), Err(TiledError::MalformedAttributes(_))));
}

#[test]
fn points_parsing_rejects_malformed_pairs() {
    assert_eq!(Object::parse_points("1,2").unwrap(), vec![(1, 2)]);
    assert!(matches!(Object::parse_points("1,2 3"), Err(TiledError::MalformedAttributes(_))));
    assert!(matches!(Object::parse_points("1,2,3"), Err(TiledError::MalformedAttributes(_))));
    assert!(matches!(Object::parse_points("1,2 "), Err(TiledError::MalformedAttributes(_))));
    assert!(matches!(Object::parse_points("a,2"), Err(TiledError::MalformedAttributes(_))));
    assert!(matches!(Object::parse_points(""), Err(TiledError::MalformedAttributes(_))));
}

#[test]
fn object_group_reads_colour_and_flag() {
    let doc = map_doc(1, 1, "<objectgroup name=\"g\" color=\"00ff7f\" visible=\"0\" opacity=\"0.5\"></objectgroup>");
    let map = parse_str(&doc).unwrap();
    let g = &map.object_groups[0];
    assert!(!g.visible);
    assert_eq!(g.opacity.as_deref(), Some("0.5"));
    let c = g.colour.unwrap();
    assert_eq!((c.red, c.green, c.blue), (0, 255, 127));
}

#[test]
fn layer_without_name_is_malformed() {
    let body = "<layer><data encoding=\"base64\" compression=\"zlib\"></data></layer>";
    assert!(matches!(parse_str(&map_doc(1, 1, body)), Err(TiledError::MalformedAttributes(_))));
}

#[test]
fn error_message_is_readable() {
    let e = parse_str("<a/>").unwrap_err();
    assert_eq!(e.message(), "Document ended before map was parsed");
}

#[test]
fn map_with_zero_width_is_malformed() {
    let doc = "<map version=\"1.0\" orientation=\"orthogonal\" width=\"0\" height=\"1\" tilewidth=\"8\" tileheight=\"8\"></map>";
    assert!(matches!(parse_str(doc), Err(TiledError::MalformedAttributes(_))));
}

#[test]
fn layer_without_data_has_no_tiles() {
    let body = "<layer name=\"l\"><properties><property name=\"a\" value=\"b\"/></properties></layer>";
    let map = parse_str(&map_doc(2, 2, body)).unwrap();
    assert!(map.layers[0].tiles.is_empty());
    assert_eq!(map.layers[0].properties.get("a").unwrap(), "b");
}

#[test]
fn children_keep_document_order() {
    let body = "<tileset firstgid=\"1\" name=\"a\" tilewidth=\"8\" tileheight=\"8\"><image source=\"x.png\" width=\"1\" height=\"1\"/><image source=\"y.png\" width=\"2\" height=\"2\"/></tileset><unknown/><layer name=\"first\"/><tileset firstgid=\"9\" name=\"b\" tilewidth=\"8\" tileheight=\"8\"/><layer name=\"second\"/>";
    let map = parse_str(&map_doc(1, 1, body)).unwrap();
    let names: Vec<&str> = map.tilesets.iter().map(|t| t.name.as_str()).collect();
    assert_eq!(names, vec!["a", "b"]);
    let sources: Vec<&str> = map.tilesets[0].images.iter().map(|i| i.source.as_str()).collect();
    assert_eq!(sources, vec!["x.png", "y.png"]);
    let layers: Vec<&str> = map.layers.iter().map(|l| l.name.as_str()).collect();
    assert_eq!(layers, vec!["first", "second"]);
}

#[test]
fn unclosed_layer_ends_prematurely() {
    let doc = "<map version=\"1\" orientation=\"orthogonal\" width=\"1\" height=\"1\" tilewidth=\"8\" tileheight=\"8\"><layer name=\"l\">";
    assert!(matches!(parse_str(doc), Err(TiledError::PrematureEnd(_))));
}

#[test]
fn malformed_error_message_is_its_text() {
    let body = object_group("<object x=\"1\" y=\"2\"><ellipse/></object>");
    let e = parse_str(&map_doc(1, 1, &body)).unwrap_err();
    assert_eq!(e.message(), "An ellipse must have a width and height");
}

#[test]
fn layer_data_error_reaches_the_caller() {
    let body = "<layer name=\"l\"><data encoding=\"base64\" compression=\"zlib\">@@@@</data></layer>";
    assert!(matches!(parse_str(&map_doc(1, 1, body)), Err(TiledError::DecodingError(_))));
}

#[test]
fn first_failing_child_decides_the_error() {
    let body = "<tileset name=\"a\" tilewidth=\"8\" tileheight=\"8\"></tileset><layer name=\"l\"><data encoding=\"base64\" compression=\"gzip\"></data></layer>";
    assert!(matches!(parse_str(&map_doc(1, 1, body)), Err(TiledError::MalformedAttributes(_))));
}
