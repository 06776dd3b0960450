use kingdom_citymap::layout::stable_hash;
use kingdom_citymap::manifest::{breadcrumb, category_label, folder_of, format_number};
use kingdom_citymap::model::{Category, Metrics, Node, NodeKind, ScanOptions};
use kingdom_citymap::scene::{city_feature_id, palette, realm_feature_id};
use kingdom_citymap::scenery::{mix64, seed_from_key, Rng};
use kingdom_citymap::tree::{insert_file, sort_and_aggregate};

#[test]
fn a_feature_names_the_folder_it_belongs_to() {
    assert_eq!(folder_of("viewer/src/engine/mod.rs"), "viewer/src/engine");
    let wards = vec![
        ("viewer".to_string(), "ward-0".to_string()),
        ("viewer/src/engine".to_string(), "ward-4".to_string()),
    ];
    let trail = breadcrumb("viewer/src/engine", &wards);
    let names: Vec<&str> = trail.iter().map(|crumb| crumb.name.as_str()).collect();
    assert_eq!(names, vec!["viewer", "src", "engine"]);
    let ids: Vec<Option<&str>> = trail.iter().map(|crumb| crumb.ward_id.as_deref()).collect();
    assert_eq!(ids, vec![Some("ward-0"), None, Some("ward-4")]);
}

#[test]
fn a_file_at_the_root_has_no_folder_trail() {
    assert_eq!(folder_of("README.md"), "");
    assert!(breadcrumb("", &Vec::new()).is_empty());
}

#[test]
fn the_last_ward_recorded_for_a_folder_wins() {
    let wards = vec![
        ("src".to_string(), "ward-1".to_string()),
        ("src".to_string(), "ward-2".to_string()),
    ];
    let trail = breadcrumb("src", &wards);
    assert_eq!(trail.len(), 1);
    assert_eq!(trail[0].ward_id.as_deref(), Some("ward-2"));
}

#[test]
fn counts_are_written_with_thousands_separators() {
    assert_eq!(format_number(0), "0");
    assert_eq!(format_number(999), "999");
    assert_eq!(format_number(1000), "1,000");
    assert_eq!(format_number(1234567), "1,234,567");
    assert_eq!(format_number(12345), "12,345");
}

#[test]
fn every_category_has_a_name() {
    assert_eq!(category_label(Category::Source), "Source");
    assert_eq!(category_label(Category::Web), "Web / UI");
    assert_eq!(category_label(Category::Docs), "Documentation");
    assert_eq!(category_label(Category::Script), "Script / Tooling");
    assert_eq!(category_label(Category::Other), "Other");
}

#[test]
fn feature_identifiers_carry_their_indices() {
    assert_eq!(city_feature_id(0), "file-0");
    assert_eq!(city_feature_id(17), "file-17");
    assert_eq!(realm_feature_id(3, 7), "3-7");
    assert_eq!(realm_feature_id(12, 0), "12-0");
}

#[test]
fn a_holding_is_painted_in_its_role() {
    let source = palette(Category::Source);
    assert_eq!(source.roof, [91, 121, 91, 255]);
    assert_eq!(source.wall, [151, 134, 102, 255]);
    assert_eq!(source.ground, [131, 117, 92, 255]);
    assert_eq!(source.trim, [79, 66, 51, 255]);
    assert_eq!(source.window, [239, 190, 88, 255]);
    let asset = palette(Category::Asset);
    assert_eq!(asset.ground, [82, 103, 62, 255]);
}

#[test]
fn a_seed_key_is_hashed_and_never_zero() {
    let high = stable_hash("repo-city-scenery") as u64;
    let low = stable_hash("alpha") as u64;
    assert_eq!(seed_from_key("alpha"), (high << 32) | low);
    assert_ne!(seed_from_key("alpha"), seed_from_key("beta"));
    assert_ne!(seed_from_key(""), 0);
}

#[test]
fn the_mixer_is_splitmix64() {
    let mut x = 1u64;
    x = (x ^ (x >> 30)).wrapping_mul(0xbf58_476d_1ce4_e5b9);
    x = (x ^ (x >> 27)).wrapping_mul(0x94d0_49bb_1331_11eb);
    x ^= x >> 31;
    assert_eq!(mix64(1), x);
    assert_eq!(mix64(0), 0);
}

#[test]
fn a_generator_stays_below_its_bound() {
    let mut rng = Rng::new(7);
    for upper in 1..50usize {
        assert!(rng.usize(upper) < upper);
    }
    let mut first = Rng::new(99);
    let mut second = Rng::new(99);
    for _ in 0..10 {
        assert_eq!(first.next(), second.next());
    }
    let mut zero = Rng::new(0);
    assert_ne!(zero.next(), 0);
}

fn file(name: &str, bytes: u64, lines: usize) -> Node {
    Node {
        name: name.to_owned(),
        relative_path: name.to_owned(),
        kind: NodeKind::File {
            category: Category::Source,
        },
        metrics: Metrics {
            bytes,
            lines,
            code_lines: lines,
            complexity: 1,
            file_count: 1,
            references: 2,
        },
        children: Vec::new(),
    }
}

#[test]
fn folders_sum_their_files_and_come_first() {
    let mut root = Node::directory("repo".to_owned(), String::new());
    assert!(root.is_directory());
    insert_file(&mut root, "zeta.rs", file("zeta.rs", 10, 1));
    insert_file(&mut root, "src/b.rs", file("b.rs", 20, 2));
    insert_file(&mut root, "src/A.rs", file("A.rs", 30, 3));
    insert_file(&mut root, "Alpha.rs", file("Alpha.rs", 40, 4));
    let total = sort_and_aggregate(&mut root);
    assert_eq!(
        total,
        Metrics {
            bytes: 100,
            lines: 10,
            code_lines: 10,
            complexity: 4,
            file_count: 4,
            references: 8,
        }
    );
    assert_eq!(root.metrics, total);
    let names: Vec<&str> = root.children.iter().map(|child| child.name.as_str()).collect();
    assert_eq!(names, vec!["src", "Alpha.rs", "zeta.rs"]);
    assert_eq!(root.children[0].relative_path, "src");
    let inner: Vec<&str> = root.children[0]
        .children
        .iter()
        .map(|child| child.name.as_str())
        .collect();
    assert_eq!(inner, vec!["A.rs", "b.rs"]);
    assert_eq!(root.children[0].metrics.bytes, 50);
}

#[test]
fn adding_metrics_sums_each_field() {
    let mut total = Metrics::default();
    total.add(file("a", 5, 2).metrics);
    total.add(file("b", 7, 3).metrics);
    assert_eq!(total.bytes, 12);
    assert_eq!(total.lines, 5);
    assert_eq!(total.file_count, 2);
    assert_eq!(total.references, 4);
}

#[test]
fn the_default_scan_keeps_fifteen_hundred_files() {
    let options = ScanOptions::default();
    assert_eq!(options.max_files, 1500);
    assert!(!options.include_ignored);
}

#[test]
fn a_cloned_tree_is_the_same_tree() {
    let mut root = Node::directory("repo".to_owned(), String::new());
    insert_file(&mut root, "src/a.rs", file("a.rs", 5, 1));
    let copy = root.clone();
    assert_eq!(copy.name, "repo");
    assert_eq!(copy.children.len(), 1);
    assert_eq!(copy.children[0].name, "src");
    assert_eq!(copy.children[0].children[0].metrics, root.children[0].children[0].metrics);
}
