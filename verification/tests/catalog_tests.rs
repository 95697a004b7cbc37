use tilewave::color::HexColor;
use tilewave::tiles::Catalog;
use tilewave::tiles::SolverError;
use tilewave::tiles::TileInfo;
use tilewave::tiles::TilesConfig;

fn tile(name: &str) -> TileInfo {
    TileInfo {
        name: name.to_string(),
        color: HexColor(0, 0, 0),
        friends_top: Vec::new(),
        friends_right: Vec::new(),
        friends_bottom: Vec::new(),
        friends_left: Vec::new(),
        image: String::new(),
        weights_top: None,
        weights_right: None,
        weights_bottom: None,
        weights_left: None,
    }
}

#[test]
fn insert_overwrites_same_identifier() {
    let mut cat = Catalog::new();
    let mut first = tile("grass");
    first.color = HexColor(0, 255, 0);
    cat.insert(first);
    cat.insert(tile("water"));
    assert_eq!(cat.len(), 2);
    let mut second = tile("grass");
    second.color = HexColor(1, 2, 3);
    cat.insert(second);
    assert_eq!(cat.len(), 2);
    let got = cat.lookup(&"grass".to_string()).unwrap();
    assert_eq!(got.color, HexColor(1, 2, 3));
    // overwriting keeps the earlier position
    assert_eq!(cat.all_ids(), vec!["grass".to_string(), "water".to_string()]);
}

#[test]
fn lookup_unknown_identifier_errors() {
    let mut cat = Catalog::new();
    cat.insert(tile("grass"));
    match cat.lookup(&"lava".to_string()) {
        Err(SolverError::UnknownTileId) => {},
        other => panic!("expected UnknownTileId, got {:?}", other),
    }
}

#[test]
fn all_ids_in_catalog_order() {
    let mut cat = Catalog::new();
    cat.insert(tile("c"));
    cat.insert(tile("a"));
    cat.insert(tile("b"));
    assert_eq!(
        cat.all_ids(),
        vec!["c".to_string(), "a".to_string(), "b".to_string()]
    );
}

#[test]
fn validate_accepts_wellformed_catalog() {
    let mut a = tile("a");
    a.friends_right = vec!["b".to_string()];
    a.weights_right = Some(vec![("b".to_string(), 4)]);
    let mut b = tile("b");
    b.friends_left = vec!["a".to_string()];
    let mut cat = Catalog::new();
    cat.insert(a);
    cat.insert(b);
    assert!(cat.validate().is_ok());
}

#[test]
fn validate_rejects_unresolved_reference() {
    let mut a = tile("a");
    a.friends_bottom = vec!["ghost".to_string()];
    let mut cat = Catalog::new();
    cat.insert(a);
    assert_eq!(cat.validate(), Err(SolverError::UnknownTileId));
}

#[test]
fn validate_rejects_unresolved_weight_key() {
    let mut a = tile("a");
    a.weights_top = Some(vec![("ghost".to_string(), 1)]);
    let mut cat = Catalog::new();
    cat.insert(a);
    assert_eq!(cat.validate(), Err(SolverError::UnknownTileId));
}

#[test]
fn validate_rejects_negative_weight() {
    let mut a = tile("a");
    a.weights_left = Some(vec![("a".to_string(), -2)]);
    let mut cat = Catalog::new();
    cat.insert(a);
    assert_eq!(cat.validate(), Err(SolverError::InvalidWeight));
}

#[test]
fn validate_reports_unresolved_before_negative() {
    let mut a = tile("a");
    a.friends_top = vec!["ghost".to_string()];
    a.weights_left = Some(vec![("a".to_string(), -2)]);
    let mut cat = Catalog::new();
    cat.insert(a);
    assert_eq!(cat.validate(), Err(SolverError::UnknownTileId));
}

#[test]
fn from_config_builds_with_overwrites() {
    let mut early = tile("a");
    early.color = HexColor(9, 9, 9);
    early.friends_right = vec!["b".to_string()];
    let mut b = tile("b");
    b.friends_left = vec!["a".to_string()];
    let mut late = tile("a");
    late.color = HexColor(1, 1, 1);
    late.friends_right = vec!["b".to_string()];
    let cat = Catalog::from_config(TilesConfig(vec![early, b, late])).unwrap();
    assert_eq!(cat.len(), 2);
    assert_eq!(cat.lookup(&"a".to_string()).unwrap().color, HexColor(1, 1, 1));
}

#[test]
fn from_config_rejects_malformed_records() {
    let mut a = tile("a");
    a.friends_right = vec!["missing".to_string()];
    assert_eq!(
        Catalog::from_config(TilesConfig(vec![a])).unwrap_err(),
        SolverError::UnknownTileId
    );
    let mut c = tile("c");
    c.weights_top = Some(vec![("c".to_string(), -1)]);
    assert_eq!(
        Catalog::from_config(TilesConfig(vec![c])).unwrap_err(),
        SolverError::InvalidWeight
    );
}
