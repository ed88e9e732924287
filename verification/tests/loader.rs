use conquest_tiles::error::DecodeError;
use conquest_tiles::loaders::TileMapLoader;
use conquest_tiles::tilemap::{TileDefinition, TileMap};

#[test]
fn loader_claims_the_tilemap_extension() {
    let loader = TileMapLoader::default();
    assert_eq!(loader.extensions(), &["tilemap"]);
}

#[test]
fn loader_reads_the_bytes_of_a_map() {
    let mut tm = TileMap::new(2, 3);
    tm.sprites.push(TileDefinition { path: "gr\u{fc}n.png".into(), cost: 4 });
    tm.set(1, 2, 0);
    let text = tm.to_string();
    let loaded = TileMapLoader.load(text.as_bytes());
    assert_eq!(loaded, Ok(tm));
}

#[test]
fn bytes_are_read_as_their_text() {
    let bytes = b"(width:2,height:3,sprites:[(path:\"gr\xc3\xbcn.png\",cost:4)],tiles:{(1,2):0},default_tile:0,nav_points:[])";
    let loaded = TileMap::from_bytes(bytes).unwrap();
    assert_eq!(loaded.width, 2);
    assert_eq!(loaded.height, 3);
    assert_eq!(loaded.sprites[0].path, "gr\u{fc}n.png");
    assert_eq!(loaded.tiles.get(&(1, 2)), Some(&0));
}

#[test]
fn bytes_that_are_not_utf8_are_refused() {
    let bytes = b"(width:2,height:3,sprites:[(path:\"gr\xfcn.png\",cost:4)],tiles:{},default_tile:0,nav_points:[])";
    assert_eq!(TileMapLoader.load(bytes), Err(DecodeError::InvalidUtf8));
    assert_eq!(TileMap::from_bytes(&[0xff]), Err(DecodeError::InvalidUtf8));
}

#[test]
fn malformed_bytes_report_the_character() {
    let bytes = b"(width:2,height:3,sprites:[(path:\"gr\xc3\xbcn.png\",cost:x)]";
    assert_eq!(TileMapLoader.load(bytes), Err(DecodeError::Malformed { offset: 49 }));
    assert_eq!(TileMap::from_bytes(b""), Err(DecodeError::Malformed { offset: 0 }));
}
