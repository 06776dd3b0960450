use kingdom_citymap::captions::{
    city_subtitle, city_title, district_captions, realm_files, realm_subtitle, realm_title,
    town_captions, DistrictSummary, TownSummary,
};
use kingdom_citymap::model::{Metrics, Node, Repository};

fn repository(name: &str, files: usize, omitted: usize, lines: usize) -> Repository {
    let mut root = Node::directory(name.to_owned(), String::new());
    root.metrics = Metrics {
        bytes: 0,
        lines,
        code_lines: 0,
        complexity: 0,
        file_count: files,
        references: 0,
    };
    Repository {
        root,
        source_path: String::new(),
        omitted_files: omitted,
    }
}

fn district(name: &str, path: &str, depth: usize, files: usize) -> DistrictSummary {
    DistrictSummary {
        name: name.to_owned(),
        path: path.to_owned(),
        depth,
        files,
    }
}

#[test]
fn a_city_is_titled_after_its_repository() {
    let demo = repository("demo", 1234, 0, 56789);
    assert_eq!(city_title(&demo), "demo · Repository City");
    assert_eq!(city_subtitle(&demo), "1,234 holdings across 56,789 lines");
}

#[test]
fn top_level_folders_are_framed_biggest_first() {
    let districts = vec![
        district("src", "src", 0, 12),
        district("engine", "src/engine", 1, 5),
        district("docs", "docs", 0, 30),
        district("tests", "tests", 0, 12),
    ];
    let (locations, wards) = district_captions(&districts);
    let seen: Vec<(&str, &str, &str)> = locations
        .iter()
        .map(|c| (c.id.as_str(), c.label.as_str(), c.detail.as_str()))
        .collect();
    assert_eq!(
        seen,
        vec![
            ("ward-0", "docs", "30 files · docs"),
            ("ward-1", "src", "12 files · src"),
            ("ward-2", "tests", "12 files · tests"),
        ]
    );
    let details: Vec<&str> = wards.iter().map(|c| c.detail.as_str()).collect();
    assert_eq!(details, vec!["30 files", "12 files", "12 files"]);
}

#[test]
fn a_realm_frames_its_towns_biggest_first() {
    let repositories = vec![
        repository("alpha", 10, 5, 1000),
        repository("beta", 2000, 0, 123456),
    ];
    let towns = vec![
        TownSummary {
            name: "alpha".to_owned(),
            repository_index: 0,
        },
        TownSummary {
            name: "beta".to_owned(),
            repository_index: 1,
        },
    ];
    let (locations, districts) = town_captions(&towns, &repositories);
    assert_eq!(locations[0].id, "town-0");
    assert_eq!(locations[0].label, "beta");
    assert_eq!(locations[0].detail, "2,000 files · 123,456 lines");
    assert_eq!(locations[1].label, "alpha");
    // Files a scan left out still count toward a town's size.
    assert_eq!(locations[1].detail, "15 files · 1,000 lines");
    assert_eq!(districts[1].detail, locations[1].detail);
    assert_eq!(realm_files(&repositories), 2015);
    assert_eq!(realm_title("dev"), "dev · Code Realm");
    assert_eq!(realm_subtitle(&repositories), "2 towns · 2,015 holdings");
}
