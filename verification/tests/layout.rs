use kingdom_citymap::layout::{arrivals, building_kind, stable_hash, ward_id, BuildingKind};
use kingdom_citymap::model::{Category, Metrics, Node, NodeKind};

fn file(name: &str, bytes: u64) -> Node {
    Node {
        name: name.to_owned(),
        relative_path: name.to_owned(),
        kind: NodeKind::File {
            category: Category::Source,
        },
        metrics: Metrics {
            bytes,
            lines: bytes as usize / 10,
            code_lines: 0,
            complexity: 0,
            file_count: 1,
            references: 0,
        },
        children: Vec::new(),
    }
}

#[test]
fn assigns_architecture_from_file_role() {
    let mut entrypoint = file("main.rs", 1000);
    entrypoint.relative_path = "src/main.rs".to_owned();
    let mut test = file("widget.spec.rs", 500);
    test.kind = NodeKind::File {
        category: Category::Test,
    };
    let mut docs = file("guide.md", 500);
    docs.kind = NodeKind::File {
        category: Category::Docs,
    };

    assert_eq!(building_kind(&entrypoint), BuildingKind::Keep);
    assert_eq!(building_kind(&test), BuildingKind::Watchtower);
    assert_eq!(building_kind(&docs), BuildingKind::Scriptorium);
}

#[test]
fn a_deep_entry_point_is_an_ordinary_guildhall() {
    let mut deep = file("main.rs", 10);
    deep.relative_path = "crates/app/src/main.rs".to_owned();
    assert_eq!(building_kind(&deep), BuildingKind::Guildhall);
    let mut upper = file("Main.rs", 10);
    upper.relative_path = "Main.rs".to_owned();
    assert_eq!(building_kind(&upper), BuildingKind::Keep);
    let folder = Node::directory("src".to_owned(), "src".to_owned());
    assert_eq!(building_kind(&folder), BuildingKind::Cottage);
    let mut config = file("main.toml", 10);
    config.kind = NodeKind::File {
        category: Category::Config,
    };
    assert_eq!(building_kind(&config), BuildingKind::CouncilHall);
}

#[test]
fn every_category_has_its_archetype() {
    let cases = [
        (Category::Source, BuildingKind::Guildhall),
        (Category::Web, BuildingKind::Market),
        (Category::Test, BuildingKind::Watchtower),
        (Category::Docs, BuildingKind::Scriptorium),
        (Category::Config, BuildingKind::CouncilHall),
        (Category::Data, BuildingKind::Granary),
        (Category::Asset, BuildingKind::Stockpile),
        (Category::Script, BuildingKind::Forge),
        (Category::Other, BuildingKind::Cottage),
    ];
    for (category, kind) in cases {
        let mut node = file("widget.x", 10);
        node.relative_path = "a/b/c/widget.x".to_owned();
        node.kind = NodeKind::File { category };
        assert_eq!(building_kind(&node), kind);
    }
}

#[test]
fn the_stable_hash_is_the_fnv_multiply_then_xor_of_the_bytes() {
    assert_eq!(stable_hash(""), 2_166_136_261);
    let expected = 2_166_136_261u32.wrapping_mul(16_777_619) ^ (b'a' as u32);
    assert_eq!(stable_hash("a"), expected);
    let expected = expected.wrapping_mul(16_777_619) ^ (b'b' as u32);
    assert_eq!(stable_hash("ab"), expected);
    // Non-ASCII text is hashed by its UTF-8 bytes.
    let mut hash = 2_166_136_261u32;
    for byte in "é".bytes() {
        hash = hash.wrapping_mul(16_777_619) ^ byte as u32;
    }
    assert_eq!(stable_hash("é"), hash);
}

#[test]
fn wards_are_numbered_by_position() {
    assert_eq!(ward_id(0), "ward-0");
    assert_eq!(ward_id(42), "ward-42");
    assert_eq!(ward_id(1234567), "ward-1234567");
}

#[test]
fn a_file_generates_a_journey_for_itself_and_each_reference() {
    let mut metrics = file("a.rs", 10).metrics;
    metrics.references = 4;
    assert_eq!(arrivals(&metrics), 5);
    metrics.file_count = 0;
    metrics.references = 0;
    assert_eq!(arrivals(&metrics), 1);
    metrics.file_count = 12;
    metrics.references = 3;
    assert_eq!(arrivals(&metrics), 15);
}

#[test]
fn a_leading_dot_or_root_counts_towards_an_entry_points_depth() {
    let mut current = file("main.rs", 10);
    current.relative_path = "./src/main.rs".to_owned();
    assert_eq!(building_kind(&current), BuildingKind::Guildhall);
    let mut rooted = file("main.rs", 10);
    rooted.relative_path = "/src/main.rs".to_owned();
    assert_eq!(building_kind(&rooted), BuildingKind::Guildhall);
    let mut shallow = file("main.rs", 10);
    shallow.relative_path = "./main.rs".to_owned();
    assert_eq!(building_kind(&shallow), BuildingKind::Keep);
    let mut inner_dot = file("main.rs", 10);
    inner_dot.relative_path = "src/./main.rs".to_owned();
    assert_eq!(building_kind(&inner_dot), BuildingKind::Keep);
    let mut parent = file("main.rs", 10);
    parent.relative_path = "../src/main.rs".to_owned();
    assert_eq!(building_kind(&parent), BuildingKind::Guildhall);
}
