use kingdom_citymap::classify::{classify, is_text_file};
use kingdom_citymap::model::{Category, Node, NodeKind, Repository, ScanOptions};
use kingdom_citymap::scan::{
    admits_entry, analyze_file, assemble_repository, discover_step, enters_child, searches_folder, select_files,
    should_read, Discovery,
};

/// Runs the scan pipeline over files held in memory, in the order a walk
/// would hand them over.
fn scan(root_name: &str, files: &[(&str, &str)], options: &ScanOptions) -> Repository {
    let walked: Vec<(String, u64)> = files
        .iter()
        .map(|(path, content)| (path.to_string(), content.len() as u64))
        .collect();
    let (kept, omitted) = select_files(walked, options);
    let mut nodes = Vec::new();
    let mut imports = Vec::new();
    for relative in &kept {
        let content = files
            .iter()
            .find(|(path, _)| *path == relative.as_str())
            .unwrap()
            .1;
        let bytes = content.len() as u64;
        let text = if should_read(bytes, relative) {
            Some(content.to_string())
        } else {
            None
        };
        let (node, imported) = analyze_file(relative, bytes, text);
        nodes.push(node);
        imports.push(imported);
    }
    assemble_repository(
        root_name.to_string(),
        String::new(),
        kept,
        nodes,
        imports,
        omitted,
    )
    .unwrap()
}

fn find<'a>(node: &'a Node, name: &str) -> &'a Node {
    if node.name == name {
        return node;
    }
    node.children
        .iter()
        .map(|child| find(child, name))
        .find(|found| found.name == name)
        .unwrap_or(node)
}

#[test]
fn a_file_counts_the_other_files_that_import_it() {
    let caller = "use crate::engine;\nfn go() { engine::run(); }\n";
    let files = [
        ("src/engine.rs", "pub fn run() {}\n"),
        ("src/quiet.rs", "pub fn idle() {}\n"),
        ("src/caller_0.rs", caller),
        ("src/caller_1.rs", caller),
        ("src/caller_2.rs", caller),
        // Naming a file outside an import line is not a reference to it.
        ("src/prose.rs", "// the engine is described here, and quiet is too\n"),
    ];
    let scanned = scan("repo", &files, &ScanOptions::default());
    assert_eq!(find(&scanned.root, "engine.rs").metrics.references, 3);
    assert_eq!(find(&scanned.root, "quiet.rs").metrics.references, 0);
    // A folder carries what its files are owed.
    assert_eq!(find(&scanned.root, "src").metrics.references, 3);
}

#[test]
fn importing_the_same_file_twice_still_counts_once() {
    let files = [
        ("engine.rs", "pub fn run() {}\n"),
        (
            "caller.rs",
            "use crate::engine::run;\nuse crate::engine::stop;\nuse crate::engine;\n",
        ),
    ];
    let scanned = scan("repo", &files, &ScanOptions::default());
    assert_eq!(find(&scanned.root, "engine.rs").metrics.references, 1);
}

#[test]
fn a_barrel_file_is_referred_to_by_its_folder() {
    let files = [
        ("widgets/mod.rs", "pub mod inner;\n"),
        ("app.rs", "use crate::widgets;\n"),
    ];
    let scanned = scan("repo", &files, &ScanOptions::default());
    assert_eq!(find(&scanned.root, "mod.rs").metrics.references, 1);
}

#[test]
fn a_crate_root_is_referred_to_by_the_crate_name() {
    let caller = "use repo_city_map::MapBuilding;\n";
    let files = [
        ("crates/repo-city-map/src/lib.rs", "pub struct MapBuilding;\n"),
        ("crates/viewer/src/one.rs", caller),
        ("crates/viewer/src/two.rs", caller),
        ("crates/viewer/src/three.rs", caller),
    ];
    let scanned = scan("repo", &files, &ScanOptions::default());
    assert_eq!(find(&scanned.root, "lib.rs").metrics.references, 3);
}

#[test]
fn a_relative_import_picks_one_of_two_files_sharing_a_name() {
    let files = [
        ("web/util/format.js", "export const f = 1;\n"),
        ("server/util/format.js", "export const f = 2;\n"),
        ("web/page.js", "import { f } from './util/format';\n"),
    ];
    let scanned = scan("repo", &files, &ScanOptions::default());
    let web = find(&scanned.root, "web");
    let server = find(&scanned.root, "server");
    assert_eq!(web.metrics.references, 1, "the imported file was not found");
    assert_eq!(
        server.metrics.references, 0,
        "a relative import credited a file in another folder"
    );
}

#[test]
fn the_item_taken_from_a_module_is_not_itself_a_reference() {
    let files = [
        ("src/engine.rs", "pub struct Renderer;\n"),
        ("src/renderer.rs", "pub fn unrelated() {}\n"),
        ("src/app.rs", "use crate::engine::Renderer;\nfn go(_: Renderer) {}\n"),
    ];
    let scanned = scan("repo", &files, &ScanOptions::default());
    assert_eq!(find(&scanned.root, "engine.rs").metrics.references, 1);
    assert_eq!(
        find(&scanned.root, "renderer.rs").metrics.references,
        0,
        "the item taken from a module was matched against a file name"
    );
}

#[test]
fn a_longer_path_beats_a_bare_name() {
    let files = [
        ("app/models/user.py", "class User: pass\n"),
        ("app/views/user.py", "def show(): pass\n"),
        ("app/main.py", "from app.models.user import User\n"),
    ];
    let scanned = scan("repo", &files, &ScanOptions::default());
    let models = find(&scanned.root, "models");
    let views = find(&scanned.root, "views");
    assert_eq!(models.metrics.references, 1);
    assert_eq!(views.metrics.references, 0, "the vaguer match was credited");
}

#[test]
fn an_import_from_outside_the_repository_credits_nothing() {
    let files = [
        ("src/collections.rs", "pub fn mine() {}\n"),
        (
            "src/app.rs",
            "use std::collections::HashMap;\nuse serde::Serialize;\n",
        ),
    ];
    let scanned = scan("repo", &files, &ScanOptions::default());
    assert_eq!(
        find(&scanned.root, "collections.rs").metrics.references,
        0,
        "a standard library path was matched against a file in the repository"
    );
}

#[test]
fn a_quoted_include_resolves_to_the_header_it_names() {
    let files = [
        ("include/gfx/engine.h", "void run(void);\n"),
        (
            "main.c",
            "#include <stdio.h>\n#include \"include/gfx/engine.h\"\n",
        ),
    ];
    let scanned = scan("repo", &files, &ScanOptions::default());
    assert_eq!(find(&scanned.root, "engine.h").metrics.references, 1);
}

#[test]
fn scans_hierarchy_and_aggregates_metrics() {
    let files = [
        ("src/main.rs", "fn main() {\n if true { println!(\"hi\"); }\n}\n"),
        ("tests/app.rs", "#[test]\nfn works() {}\n"),
    ];
    let repository = scan(
        "repo",
        &files,
        &ScanOptions {
            max_files: 10,
            include_ignored: false,
        },
    );

    assert_eq!(repository.root.metrics.file_count, 2);
    assert_eq!(repository.root.metrics.lines, 5);
    assert_eq!(repository.root.children.len(), 2);
    let test_file = &repository.root.children[1].children[0];
    assert!(matches!(
        test_file.kind,
        NodeKind::File {
            category: Category::Test
        }
    ));
}

#[test]
fn reports_files_above_limit() {
    let files = [("0.rs", "fn f() {}"), ("1.rs", "fn f() {}"), ("2.rs", "fn f() {}")];
    let repository = scan(
        "repo",
        &files,
        &ScanOptions {
            max_files: 2,
            include_ignored: false,
        },
    );

    assert_eq!(repository.root.metrics.file_count, 2);
    assert_eq!(repository.omitted_files, 1);
}

#[test]
fn distinguishes_backend_web_and_automation_code() {
    assert_eq!(classify("controllers/task.js", "js"), Category::Source);
    assert_eq!(classify("webinterface/src/store.js", "js"), Category::Web);
    assert_eq!(classify("scripts/dev.js", "js"), Category::Script);
}

#[test]
fn classifies_by_role_before_extension() {
    assert_eq!(classify("src/test_widget.rs", "rs"), Category::Test);
    assert_eq!(classify("docs/guide.md", "md"), Category::Docs);
    assert_eq!(classify("Cargo.toml", "toml"), Category::Config);
    assert_eq!(classify("assets/logo.png", "png"), Category::Asset);
    assert_eq!(classify("schema.sql", "sql"), Category::Data);
    assert_eq!(classify("src/lib.rs", "rs"), Category::Source);
    assert_eq!(classify("notes.xyz", "xyz"), Category::Other);
}

#[test]
fn binary_files_are_not_read() {
    assert!(!is_text_file("png", "logo.png"));
    assert!(is_text_file("rs", "main.rs"));
    assert!(!should_read(10, "assets/logo.png"));
    assert!(should_read(10, "src/main.rs"));
    assert!(!should_read(3 * 1024 * 1024, "src/huge.rs"));
}

#[test]
fn a_file_too_large_to_read_still_counts() {
    let (node, imports) = analyze_file("src/huge.rs", 3 * 1024 * 1024, None);
    assert_eq!(node.name, "huge.rs");
    assert_eq!(node.metrics.bytes, 3 * 1024 * 1024);
    assert_eq!(node.metrics.lines, 0);
    assert_eq!(node.metrics.file_count, 1);
    assert!(imports.is_empty());
}

#[test]
fn an_analysed_file_counts_its_lines_and_branches() {
    let text = "fn main() {\n    if a && b { run(); }\n\n    // note\n}\n";
    let (node, _) = analyze_file("src/main.rs", text.len() as u64, Some(text.to_string()));
    assert_eq!(node.metrics.lines, 5);
    assert_eq!(node.metrics.code_lines, 3);
    assert_eq!(node.metrics.complexity, 2);
    assert!(matches!(
        node.kind,
        NodeKind::File {
            category: Category::Source
        }
    ));
}

#[test]
fn files_are_kept_in_path_order() {
    let files = vec![
        ("src/b.rs".to_string(), 10),
        ("a.rs".to_string(), 30),
        ("src/a.rs".to_string(), 20),
    ];
    let (kept, omitted) = select_files(files, &ScanOptions::default());
    assert_eq!(kept, vec!["a.rs", "src/a.rs", "src/b.rs"]);
    assert_eq!(omitted, 0);
}

#[test]
fn a_truncated_scan_keeps_the_largest_files() {
    let files = vec![
        ("d.rs".to_string(), 5),
        ("b.rs".to_string(), 400),
        ("a.rs".to_string(), 7),
        ("c.rs".to_string(), 90),
        ("e.rs".to_string(), 90),
    ];
    let options = ScanOptions {
        max_files: 3,
        include_ignored: false,
    };
    let (kept, omitted) = select_files(files, &options);
    assert_eq!(kept, vec!["b.rs", "c.rs", "e.rs"]);
    assert_eq!(omitted, 2);
}

#[test]
fn files_of_equal_size_are_kept_in_path_order() {
    let files = vec![
        ("z.rs".to_string(), 8),
        ("m.rs".to_string(), 8),
        ("a.rs".to_string(), 8),
    ];
    let options = ScanOptions {
        max_files: 2,
        include_ignored: false,
    };
    let (kept, omitted) = select_files(files, &options);
    assert_eq!(kept, vec!["a.rs", "m.rs"]);
    assert_eq!(omitted, 1);
}

#[test]
fn a_scan_allowed_no_files_keeps_none() {
    let files = vec![("a.rs".to_string(), 1)];
    let options = ScanOptions {
        max_files: 0,
        include_ignored: false,
    };
    let (kept, omitted) = select_files(files, &options);
    assert!(kept.is_empty());
    assert_eq!(omitted, 1);
}

#[test]
fn generated_folders_are_never_entered() {
    assert!(!admits_entry("node_modules"));
    assert!(!admits_entry("target"));
    assert!(admits_entry("src"));
    assert!(!searches_folder(".cache"));
    assert!(!searches_folder("vendor"));
    assert!(searches_folder("group"));
}

#[test]
fn an_empty_repository_is_an_empty_root() {
    let repository = scan("empty", &[], &ScanOptions::default());
    assert_eq!(repository.root.name, "empty");
    assert_eq!(repository.root.metrics.file_count, 0);
    assert!(repository.root.children.is_empty());
    assert_eq!(repository.omitted_files, 0);
}

#[test]
fn a_repository_is_never_searched_below() {
    assert_eq!(discover_step(true, 0, 3), Discovery::Repository);
    assert_eq!(discover_step(true, 3, 3), Discovery::Repository);
}

#[test]
fn the_search_stops_at_its_depth_limit() {
    assert_eq!(discover_step(false, 3, 3), Discovery::Stop);
    assert_eq!(discover_step(false, 4, 3), Discovery::Stop);
    assert_eq!(discover_step(false, 2, 3), Discovery::Descend);
}

#[test]
fn the_search_enters_only_real_searched_folders() {
    assert!(enters_child(true, false, "services"));
    assert!(!enters_child(false, false, "services"));
    assert!(!enters_child(true, true, "services"));
    assert!(!enters_child(true, false, ".cache"));
    assert!(!enters_child(true, false, "node_modules"));
}

#[test]
fn a_file_longer_than_its_size_is_still_analysed() {
    let text = "if a {\n}\nif b {\n}\n".to_string();
    let (node, _) = analyze_file("src/grew.rs", 4, Some(text));
    assert_eq!(node.metrics.bytes, 4);
    assert_eq!(node.metrics.lines, 4);
    assert_eq!(node.metrics.complexity, 2);
}
