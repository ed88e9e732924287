use conquest_tiles::error::DecodeError;
use conquest_tiles::tilemap::{NavPoint, TileDefinition, TileMap};

const SIMPLE: &str = "(width:24,height:12,sprites:[(path:\"floor.png\",cost:1),(path:\"wall.png\",cost:127)],tiles:{(5,5):1,(9,9):1},default_tile:0,nav_points:[(id:0,x:1,y:1,edges:[]),(id:1,x:5,y:5,edges:[0])])";

fn simple_map() -> TileMap {
    let mut tm = TileMap::new(24, 12);
    tm.sprites.push(TileDefinition { path: "floor.png".into(), cost: 1 });
    tm.sprites.push(TileDefinition { path: "wall.png".into(), cost: i8::MAX });
    tm.set(5, 5, 1);
    tm.set(9, 9, 1);
    tm.nav_points.push(NavPoint { id: 0, x: 1, y: 1, edges: vec![] });
    tm.nav_points.push(NavPoint { id: 1, x: 5, y: 5, edges: vec![0] });
    tm
}

fn malformed_at(text: &str) -> usize {
    match TileMap::from_str(text) {
        Err(DecodeError::Malformed { offset }) => offset,
        other => panic!("expected a malformed text, got {:?}", other),
    }
}

#[test]
fn simple_map_round_trips() {
    let tm = simple_map();
    let text = tm.to_string();
    let parsed = TileMap::from_str(text.as_str()).unwrap();
    assert_eq!(parsed.width, 24);
    assert_eq!(parsed.height, 12);
    assert_eq!(parsed.sprites, tm.sprites);
    assert_eq!(parsed.tiles.len(), 2);
    assert_eq!(parsed.tiles.get(&(5, 5)), Some(&1));
    assert_eq!(parsed.tiles.get(&(9, 9)), Some(&1));
    assert_eq!(parsed.default_tile, 0);
    assert_eq!(parsed.nav_points, tm.nav_points);
    assert_eq!(parsed, tm);
}

#[test]
fn simple_map_is_written_member_by_member() {
    assert_eq!(simple_map().to_string(), SIMPLE);
}

#[test]
fn simple_text_is_read_member_by_member() {
    assert_eq!(TileMap::from_str(SIMPLE), Ok(simple_map()));
}

#[test]
fn empty_map_is_written_with_empty_lists() {
    let tm = TileMap::new(0, 0);
    let text = tm.to_string();
    assert_eq!(text, "(width:0,height:0,sprites:[],tiles:{},default_tile:0,nav_points:[])");
    assert_eq!(TileMap::from_str(text.as_str()), Ok(tm));
}

#[test]
fn text_does_not_depend_on_the_order_of_sets() {
    let mut forward = TileMap::new(3, 3);
    forward.set(0, 2, 4);
    forward.set(1, 0, 5);
    forward.set(1, 1, 6);
    forward.set(256, 0, 7);
    let mut backward = TileMap::new(3, 3);
    backward.set(256, 0, 7);
    backward.set(1, 1, 0);
    backward.set(1, 1, 6);
    backward.set(1, 0, 5);
    backward.set(0, 2, 4);
    assert_eq!(forward.to_string(), backward.to_string());
    assert_eq!(
        forward.to_string(),
        "(width:3,height:3,sprites:[],tiles:{(0,2):4,(1,0):5,(1,1):6,(256,0):7},default_tile:0,nav_points:[])"
    );
}

#[test]
fn extreme_numbers_round_trip() {
    let mut tm = TileMap::new(u16::MAX, u16::MAX);
    tm.sprites.push(TileDefinition { path: String::new(), cost: i8::MIN });
    tm.sprites.push(TileDefinition { path: "a".into(), cost: -1 });
    tm.sprites.push(TileDefinition { path: "b".into(), cost: 0 });
    tm.set(u16::MAX, u16::MAX, usize::MAX);
    tm.set(0, 0, 0);
    tm.default_tile = usize::MAX;
    tm.nav_points.push(NavPoint { id: u16::MAX, x: 0, y: u16::MAX, edges: vec![u16::MAX, 0, 10, 10] });
    let text = tm.to_string();
    assert!(text.starts_with(
        "(width:65535,height:65535,sprites:[(path:\"\",cost:-128),(path:\"a\",cost:-1),(path:\"b\",cost:0)],tiles:{(0,0):0,(65535,65535):"
    ));
    assert!(text.ends_with("nav_points:[(id:65535,x:0,y:65535,edges:[65535,0,10,10])])"));
    assert_eq!(TileMap::from_str(text.as_str()), Ok(tm));
}

#[test]
fn paths_are_escaped() {
    let mut tm = TileMap::new(1, 1);
    let path = "dir\\file \"one\"\n\ttab\r'q' \u{e9}\u{1f600}\0";
    tm.sprites.push(TileDefinition { path: path.into(), cost: 0 });
    let text = tm.to_string();
    assert_eq!(
        text,
        "(width:1,height:1,sprites:[(path:\"dir\\\\file \\\"one\\\"\\n\\ttab\\r'q' \u{e9}\u{1f600}\0\",cost:0)],tiles:{},default_tile:0,nav_points:[])"
    );
    let parsed = TileMap::from_str(text.as_str()).unwrap();
    assert_eq!(parsed.sprites[0].path, path);
    assert_eq!(parsed, tm);
}

#[test]
fn escapes_are_read() {
    let text = "(width:1,height:1,sprites:[(path:\"a\\'b\\0c\\\\d\\\"e\\nf\\rg\\th\",cost:0)],tiles:{},default_tile:0,nav_points:[])";
    let parsed = TileMap::from_str(text).unwrap();
    assert_eq!(parsed.sprites[0].path, "a'b\0c\\d\"e\nf\rg\th");
}

#[test]
fn blanks_and_trailing_commas_are_accepted() {
    let text = "\n(\n    width: 24,\n    height: 12,\n    sprites: [\n        (\n            path: \"floor.png\",\n            cost: 1,\n        ),\n        (path :\"wall.png\" , cost : 127 ,),\n    ],\n    tiles: {\n        (5, 5): 1,\n        ( 9 ,\t9 ) : 1,\n    },\n    default_tile: 0,\n    nav_points: [\n        (id: 0, x: 1, y: 1, edges: [],),\n        (id: 1, x: 5, y: 5, edges: [0,],),\n    ],\n)\r\n";
    assert_eq!(TileMap::from_str(text), Ok(simple_map()));
}

#[test]
fn leading_zeros_are_accepted() {
    let text = "(width:0024,height:012,sprites:[(path:\"p\",cost:-007)],tiles:{(05,5):01},default_tile:000,nav_points:[])";
    let parsed = TileMap::from_str(text).unwrap();
    assert_eq!(parsed.width, 24);
    assert_eq!(parsed.height, 12);
    assert_eq!(parsed.sprites[0].cost, -7);
    assert_eq!(parsed.tiles.get(&(5, 5)), Some(&1));
    assert_eq!(parsed.default_tile, 0);
}

#[test]
fn last_entry_of_a_cell_holds() {
    let text = "(width:1,height:1,sprites:[],tiles:{(5,5):1,(9,9):1,(5,5):3},default_tile:0,nav_points:[])";
    let parsed = TileMap::from_str(text).unwrap();
    assert_eq!(parsed.tiles.len(), 2);
    assert_eq!(parsed.tiles.get(&(5, 5)), Some(&3));
    assert_eq!(parsed.tiles.get(&(9, 9)), Some(&1));
}

#[test]
fn empty_text_is_malformed() {
    assert_eq!(TileMap::from_str(""), Err(DecodeError::Malformed { offset: 0 }));
    assert_eq!(TileMap::from_str("  \n"), Err(DecodeError::Malformed { offset: 3 }));
}

#[test]
fn malformed_texts_report_where() {
    assert_eq!(malformed_at("[width:1]"), 0);
    assert_eq!(malformed_at("(height:1"), 1);
    assert_eq!(malformed_at("(width 1"), 7);
    assert_eq!(malformed_at("(width:x"), 7);
    assert_eq!(malformed_at("(width:1;"), 8);
    assert_eq!(malformed_at("(width:1,height:2,sprite:[]"), 18);
    assert_eq!(malformed_at("(width:1,height:2,sprites:[],tiles:{},default_tile:0,nav_points:[]"), 66);
    assert_eq!(malformed_at("(width:1,height:2,sprites:[,],tiles:{},default_tile:0,nav_points:[])"), 27);
    assert_eq!(malformed_at("(width:1,height:2,sprites:[],tiles:{(1,2)},default_tile:0,nav_points:[])"), 41);
    assert_eq!(malformed_at("(width:1,height:2,sprites:[],tiles:{},nav_points:[],default_tile:0)"), 38);
}

#[test]
fn text_behind_the_map_is_malformed() {
    let mut text = String::from(SIMPLE);
    let end = text.chars().count();
    text.push_str("  x");
    assert_eq!(malformed_at(text.as_str()), end + 2);
    let mut twice = String::from(SIMPLE);
    twice.push_str(SIMPLE);
    assert_eq!(malformed_at(twice.as_str()), end);
}

#[test]
fn numbers_out_of_range_are_malformed() {
    assert_eq!(malformed_at("(width:65536,height:1"), 7);
    assert_eq!(malformed_at("(width: 99999999999999999999999999999999,height:1"), 8);
    assert_eq!(malformed_at("(width:-1,height:1"), 7);
    assert_eq!(malformed_at("(width:1,height:1,sprites:[(path:\"p\",cost:128)]"), 42);
    assert_eq!(malformed_at("(width:1,height:1,sprites:[(path:\"p\",cost:-129)]"), 42);
    assert_eq!(malformed_at("(width:1,height:1,sprites:[(path:\"p\",cost:- 1)]"), 42);
    assert_eq!(malformed_at("(width:1,height:1,sprites:[(path:\"p\",cost:-)]"), 42);
    assert_eq!(
        malformed_at("(width:1,height:1,sprites:[],tiles:{},default_tile:340282366920938463463374607431768211456,"),
        51
    );
}

#[test]
fn largest_numbers_are_read() {
    let text = format!(
        "(width:65535,height:0,sprites:[(path:\"p\",cost:-128),(path:\"q\",cost:127)],tiles:{{}},default_tile:{},nav_points:[])",
        usize::MAX
    );
    let parsed = TileMap::from_str(text.as_str()).unwrap();
    assert_eq!(parsed.width, 65535);
    assert_eq!(parsed.sprites[0].cost, -128);
    assert_eq!(parsed.sprites[1].cost, 127);
    assert_eq!(parsed.default_tile, usize::MAX);
}

#[test]
fn broken_strings_are_malformed() {
    assert_eq!(malformed_at("(width:1,height:1,sprites:[(path:\"abc"), 37);
    assert_eq!(malformed_at("(width:1,height:1,sprites:[(path:\"a\\qb\",cost:1)]"), 35);
    assert_eq!(malformed_at("(width:1,height:1,sprites:[(path:\"a\\"), 35);
    assert_eq!(malformed_at("(width:1,height:1,sprites:[(path:'a',cost:1)]"), 33);
}

#[test]
fn offsets_count_characters() {
    assert_eq!(malformed_at("(width:1,height:1,sprites:[(path:\"\u{e9}\u{1f600}\",cost:x)]"), 43);
}

#[test]
fn malformed_says_so() {
    let error = DecodeError::Malformed { offset: 41 };
    assert_eq!(error.message(), "malformed tile map at character 41");
}

#[test]
fn invalid_utf8_says_so() {
    assert_eq!(DecodeError::InvalidUtf8.message(), "malformed tile map: not UTF-8");
}

#[test]
fn order_of_table_entries_does_not_matter() {
    let sorted = "(width:3,height:3,sprites:[],tiles:{(0,2):4,(1,0):5,(256,0):7},default_tile:0,nav_points:[])";
    let shuffled = "(width:3,height:3,sprites:[],tiles:{(256,0):7,(0,2):4,(1,0):5},default_tile:0,nav_points:[])";
    let first = TileMap::from_str(sorted).unwrap();
    let second = TileMap::from_str(shuffled).unwrap();
    assert_eq!(first, second);
    assert_eq!(second.to_string(), sorted);
}

#[test]
fn reading_twice_gives_equal_maps() {
    let text = simple_map().to_string();
    let once = TileMap::from_str(text.as_str()).unwrap();
    let twice = TileMap::from_str(once.to_string().as_str()).unwrap();
    assert_eq!(once, twice);
    assert_eq!(once.to_string(), text);
}
