use std::io::Read;

use pixelprint::blueprint::Container;
use pixelprint::blueprint_decode::{decode, DecodeError, SignalKind};
use pixelprint::codec::doc_to_bytes;
use pixelprint::grid::build_grids;

fn empty_grid(width: usize, height: usize) -> Vec<Vec<&'static str>> {
    vec![vec![""; width]; height]
}

fn sample_container() -> Container {
    let mut entities = empty_grid(2, 2);
    entities[0][0] = "stone-wall";
    entities[1][1] = "pipe-to-ground";
    let mut tiles = empty_grid(2, 2);
    tiles[0][1] = "concrete";
    Container::build(entities, tiles)
}

#[test]
fn document_bytes_are_exact() {
    let c = sample_container();
    let doc = String::from_utf8(doc_to_bytes(&c)).unwrap();
    let expected = "{\"blueprint\":{\"icons\":[{\"signal\":{\"type\":\"item\",\"name\":\"stone-wall\"},\"index\":1}],\"entities\":[{\"entity_number\":1,\"name\":\"stone-wall\",\"position\":{\"x\":0.5,\"y\":0.5}},{\"entity_number\":2,\"name\":\"pipe-to-ground\",\"position\":{\"x\":1.5,\"y\":1.5},\"direction\":4}],\"tiles\":[{\"name\":\"concrete\",\"position\":{\"x\":1.0,\"y\":0.0}}],\"item\":\"blueprint\",\"label\":\"Generated Blueprint\",\"version\":281479275413505}}";
    assert_eq!(doc, expected);
}

#[test]
fn transport_stack_is_marker_base64_zlib_document() {
    let c = sample_container();
    let encoded = c.encode();
    assert_eq!(encoded.chars().next(), Some('0'));
    let compressed = base64::decode(&encoded.as_bytes()[1..]).unwrap();
    let mut document = String::new();
    flate2::read::ZlibDecoder::new(&*compressed)
        .read_to_string(&mut document)
        .unwrap();
    assert_eq!(document.as_bytes(), doc_to_bytes(&c).as_slice());
}

#[test]
fn round_trip_reproduces_layout() {
    let c = sample_container();
    let decoded = decode(&c.encode()).unwrap();
    let b = &decoded.blueprint;
    assert_eq!(b.version, c.blueprint.version);
    assert_eq!(b.item, b"blueprint".to_vec());
    assert_eq!(b.label, b"Generated Blueprint".to_vec());
    assert_eq!(b.icons.len(), 1);
    assert_eq!(b.icons[0].signal.name, b"stone-wall".to_vec());
    assert_eq!(b.icons[0].index, 1);
    assert_eq!(b.entities.len(), c.blueprint.entities.len());
    for (d, e) in b.entities.iter().zip(c.blueprint.entities.iter()) {
        assert_eq!(d.entity_number, e.entity_number);
        assert_eq!(d.name, e.name.as_bytes().to_vec());
        assert_eq!(d.position.x2, e.position.x2);
        assert_eq!(d.position.y2, e.position.y2);
    }
    assert_eq!(b.tiles.len(), c.blueprint.tiles.len());
    for (d, t) in b.tiles.iter().zip(c.blueprint.tiles.iter()) {
        assert_eq!(d.name, t.name.as_bytes().to_vec());
        assert_eq!(d.position.x2, t.position.x2);
        assert_eq!(d.position.y2, t.position.y2);
    }
}

#[test]
fn end_to_end_two_pixel_scenario() {
    // a 2 x 1 buffer: pixel (0, 0) exactly matches the ground entry
    // stone-path at full alpha, pixel (1, 0) is fully transparent. The
    // layout holds one tile at (0, 0) and no entities, and survives the
    // round trip.
    let pixels = vec![(82, 81, 74, 255), (0, 0, 0, 0)];
    let (objects, ground) = build_grids(2, 1, &pixels).unwrap();
    let c = Container::build(objects, ground);
    assert!(c.blueprint.entities.is_empty());
    assert_eq!(c.blueprint.tiles.len(), 1);
    assert_eq!(c.blueprint.tiles[0].name, "stone-path");
    assert_eq!(c.blueprint.tiles[0].position.x2, 0);
    assert_eq!(c.blueprint.tiles[0].position.y2, 0);

    let decoded = decode(&c.encode()).unwrap();
    assert!(decoded.blueprint.entities.is_empty());
    assert_eq!(decoded.blueprint.tiles.len(), 1);
    assert_eq!(decoded.blueprint.tiles[0].name, b"stone-path".to_vec());
    assert_eq!(decoded.blueprint.tiles[0].position.x2, 0);
    assert_eq!(decoded.blueprint.tiles[0].position.y2, 0);
}

#[test]
fn minimal_document_defaults_absent_fields() {
    // consumers may omit the entity list, tile list and label; they then
    // default to empty.
    let document = "{\"blueprint\":{\"icons\":[{\"signal\":{\"type\":\"item\",\"name\":\"stone-wall\"},\"index\":1}],\"item\":\"blueprint\",\"version\":281479275413505}}";
    let mut encoder =
        flate2::write::ZlibEncoder::new(Vec::new(), flate2::Compression::new(9));
    std::io::Write::write_all(&mut encoder, document.as_bytes()).unwrap();
    let compressed = encoder.finish().unwrap();
    let mut transport = String::from("0");
    transport.push_str(&base64::encode(compressed));

    let decoded = decode(&transport).unwrap();
    assert!(decoded.blueprint.entities.is_empty());
    assert!(decoded.blueprint.tiles.is_empty());
    assert!(decoded.blueprint.label.is_empty());
    assert_eq!(decoded.blueprint.icons.len(), 1);
    assert_eq!(decoded.blueprint.version, 281479275413505);
}

#[test]
fn decode_reads_fluid_and_virtual_icon_kinds() {
    let document = "{\"blueprint\":{\"icons\":[{\"signal\":{\"type\":\"fluid\",\"name\":\"water\"},\"index\":1},{\"signal\":{\"type\":\"virtual\",\"name\":\"signal-A\"},\"index\":2}],\"item\":\"blueprint\",\"version\":281479275413505}}";
    let mut encoder =
        flate2::write::ZlibEncoder::new(Vec::new(), flate2::Compression::new(9));
    std::io::Write::write_all(&mut encoder, document.as_bytes()).unwrap();
    let mut transport = String::from("0");
    transport.push_str(&base64::encode(encoder.finish().unwrap()));

    let decoded = decode(&transport).unwrap();
    let icons = &decoded.blueprint.icons;
    assert_eq!(icons.len(), 2);
    assert!(matches!(icons[0].signal.kind, SignalKind::Fluid));
    assert_eq!(icons[0].signal.name, b"water".to_vec());
    assert!(matches!(icons[1].signal.kind, SignalKind::Virtual));
    assert_eq!(icons[1].index, 2);
}

#[test]
fn malformed_transport_strings_name_the_failing_stage() {
    assert!(matches!(decode(""), Err(DecodeError::Empty)));
    assert!(matches!(decode("0!!!not base64!!!"), Err(DecodeError::Base64)));

    let mut not_zlib = String::from("0");
    not_zlib.push_str(&base64::encode(b"not a zlib stream"));
    assert!(matches!(decode(&not_zlib), Err(DecodeError::Inflate)));

    let mut encoder =
        flate2::write::ZlibEncoder::new(Vec::new(), flate2::Compression::new(9));
    std::io::Write::write_all(&mut encoder, b"{\"junk\":true}").unwrap();
    let mut not_doc = String::from("0");
    not_doc.push_str(&base64::encode(encoder.finish().unwrap()));
    assert!(matches!(decode(&not_doc), Err(DecodeError::Parse)));
}
