use conquest_tiles::tilemap::{NavPoint, TileDefinition, TileMap};
use ron::{Number, Value};

fn stored_map() -> TileMap {
    let mut tm = TileMap::new(24, 12);
    tm.sprites.push(TileDefinition { path: "floor.png".into(), cost: 1 });
    tm.sprites.push(TileDefinition { path: "wall.png".into(), cost: -7 });
    tm.set(9, 9, 1);
    tm.set(5, 5, 1);
    tm.nav_points.push(NavPoint { id: 0, x: 1, y: 1, edges: vec![] });
    tm.nav_points.push(NavPoint { id: 1, x: 5, y: 5, edges: vec![0, 1] });
    tm
}

fn name(text: &str) -> Value {
    Value::String(text.into())
}

fn whole(n: i64) -> Value {
    Value::Number(Number::Integer(n))
}

fn members(value: &Value) -> &ron::Map {
    match value {
        Value::Map(map) => map,
        other => panic!("expected a structure, got {:?}", other),
    }
}

#[test]
fn written_map_is_ron() {
    let text = stored_map().to_string();
    let value: Value = ron::from_str(text.as_str()).unwrap();
    let map = members(&value);
    assert_eq!(map.len(), 6);
    assert_eq!(map[&name("width")], whole(24));
    assert_eq!(map[&name("height")], whole(12));
    assert_eq!(map[&name("default_tile")], whole(0));

    let sprites = match &map[&name("sprites")] {
        Value::Seq(sprites) => sprites,
        other => panic!("expected a list, got {:?}", other),
    };
    assert_eq!(sprites.len(), 2);
    assert_eq!(members(&sprites[0])[&name("path")], name("floor.png"));
    assert_eq!(members(&sprites[0])[&name("cost")], whole(1));
    assert_eq!(members(&sprites[1])[&name("path")], name("wall.png"));
    assert_eq!(members(&sprites[1])[&name("cost")], whole(-7));

    let tiles = members(&map[&name("tiles")]);
    assert_eq!(tiles.len(), 2);
    assert_eq!(tiles[&Value::Seq(vec![whole(5), whole(5)])], whole(1));
    assert_eq!(tiles[&Value::Seq(vec![whole(9), whole(9)])], whole(1));

    let points = match &map[&name("nav_points")] {
        Value::Seq(points) => points,
        other => panic!("expected a list, got {:?}", other),
    };
    assert_eq!(points.len(), 2);
    assert_eq!(members(&points[1])[&name("id")], whole(1));
    assert_eq!(members(&points[1])[&name("x")], whole(5));
    assert_eq!(members(&points[1])[&name("y")], whole(5));
    assert_eq!(members(&points[1])[&name("edges")], Value::Seq(vec![whole(0), whole(1)]));
    assert_eq!(members(&points[0])[&name("edges")], Value::Seq(vec![]));
}

#[test]
fn tile_table_is_written_as_ron_writes_it() {
    let mut tm = stored_map();
    tm.set(0, 300, 2);
    tm.set(300, 0, 3);
    let table = ron::to_string(&tm.tiles).unwrap();
    assert_eq!(table, "{(0,300):2,(5,5):1,(9,9):1,(300,0):3}");
    assert!(tm.to_string().contains(format!("],tiles:{},default_tile:", table).as_str()));
}

#[test]
fn lists_of_numbers_are_written_as_ron_writes_them() {
    let edges: Vec<u16> = vec![65535, 0, 7];
    let mut tm = TileMap::new(1, 1);
    tm.nav_points.push(NavPoint { id: 3, x: 0, y: 0, edges: edges.clone() });
    let list = ron::to_string(&edges).unwrap();
    assert_eq!(list, "[65535,0,7]");
    assert!(tm.to_string().ends_with(format!("edges:{})])", list).as_str()));
}

#[test]
fn paths_are_quoted_as_ron_quotes_them() {
    for path in ["floor.png", "", "dir\\file \"one\"", "line\nbreak\ttab\rreturn", "gr\u{fc}n \u{1f600}"] {
        let mut tm = TileMap::new(1, 1);
        tm.sprites.push(TileDefinition { path: path.into(), cost: 0 });
        let quoted = ron::to_string(&path).unwrap();
        assert!(tm.to_string().contains(format!("(path:{},cost:0)", quoted).as_str()));
    }
}

#[test]
fn paths_that_ron_quoted_are_read() {
    for path in ["it's", "a\\b", "\"q\"", "two\nlines", "gr\u{fc}n"] {
        let quoted = ron::to_string(&path).unwrap();
        let text = format!(
            "(width:1,height:1,sprites:[(path:{},cost:0)],tiles:{{}},default_tile:0,nav_points:[])",
            quoted
        );
        let tm = TileMap::from_str(text.as_str()).unwrap();
        assert_eq!(tm.sprites[0].path, path);
    }
}

#[test]
fn ron_reads_the_paths_that_were_written() {
    for path in ["it's", "a\\b", "\"q\"", "two\nlines\tand\rmore", "gr\u{fc}n \u{1f600}"] {
        let mut tm = TileMap::new(1, 1);
        tm.sprites.push(TileDefinition { path: path.into(), cost: 0 });
        let value: Value = ron::from_str(tm.to_string().as_str()).unwrap();
        let sprites = match &members(&value)[&name("sprites")] {
            Value::Seq(sprites) => sprites,
            other => panic!("expected a list, got {:?}", other),
        };
        assert_eq!(members(&sprites[0])[&name("path")], name(path));
    }
}
