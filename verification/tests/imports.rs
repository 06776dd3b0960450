use kingdom_citymap::aliases::aliases;
use kingdom_citymap::imports::{imported_paths, is_import_line, specifiers, split_specifier};
use kingdom_citymap::references::{count_references, FileIndex};

fn strings(items: &[&str]) -> Vec<String> {
    items.iter().map(|item| item.to_string()).collect()
}

#[test]
fn import_lines_are_recognised_by_their_opening() {
    assert!(is_import_line("use crate::engine;"));
    assert!(is_import_line("#include \"engine.h\""));
    assert!(is_import_line("from app.models import User"));
    assert!(is_import_line("const x = require('./x');"));
    assert!(!is_import_line("let x = 1;"));
    assert!(!is_import_line("user = 3"));
}

#[test]
fn a_quoted_target_is_taken_as_written() {
    assert_eq!(
        specifiers("import { f } from './util/format';"),
        vec!["./util/format"]
    );
    assert_eq!(specifiers("#include <stdio.h>"), vec!["stdio.h"]);
    assert_eq!(
        specifiers("use crate::engine::{run, stop};"),
        vec!["crate::engine::"]
    );
    assert_eq!(specifiers("from app.models.user import User"), vec!["app.models.user"]);
    assert!(specifiers("use {").is_empty());
}

#[test]
fn a_specifier_splits_into_lowercase_segments() {
    assert_eq!(split_specifier("./util/format"), vec![".", "util", "format"]);
    assert_eq!(split_specifier("../lib/Engine.js"), vec!["..", "lib", "engine"]);
    assert_eq!(split_specifier("app.models.user"), vec!["app", "models", "user"]);
    assert_eq!(
        split_specifier("repo_city_map::MapBuilding;"),
        vec!["repo-city-map", "mapbuilding"]
    );
    assert_eq!(split_specifier("crate::engine::"), vec!["engine"]);
    assert!(split_specifier("self").is_empty());
}

#[test]
fn each_imported_path_is_listed_once() {
    let text = "use crate::engine::run;\nuse crate::engine::stop;\nuse crate::engine;\nuse crate::engine;\nfn main() {}\n";
    assert_eq!(
        imported_paths(text),
        vec![
            strings(&["engine", "run"]),
            strings(&["engine", "stop"]),
            strings(&["engine"]),
        ]
    );
    assert!(imported_paths("fn main() {}\n").is_empty());
}

#[test]
fn a_crate_root_answers_to_the_crate_name() {
    assert_eq!(
        aliases("crates/repo-city-map/src/lib.rs"),
        vec!["crates/repo-city-map/src", "repo-city-map", "repo-city-map/src", "src"]
    );
    assert_eq!(aliases("src/engine.rs"), vec!["engine", "src/engine"]);
    assert_eq!(
        aliases("My_Dir/Some_File.RS"),
        vec!["my-dir/some-file", "some-file"]
    );
    assert!(aliases("main.rs").is_empty());
}

#[test]
fn a_bare_name_is_trusted_only_at_the_head() {
    let index = FileIndex::build(&strings(&["src/engine.rs", "src/quiet.rs", "io.rs"]));
    assert_eq!(index.lookup("engine", true), vec![0]);
    assert!(index.lookup("engine", false).is_empty());
    assert_eq!(index.lookup("src/engine", false), vec![0]);
    assert!(index.lookup("io", true).is_empty());
    assert!(index.lookup("missing", true).is_empty());
}

#[test]
fn a_name_shared_by_too_many_files_means_nothing() {
    let four = strings(&["a/util.rs", "b/util.rs", "c/util.rs", "d/util.rs"]);
    let index = FileIndex::build(&four);
    assert_eq!(index.lookup("util", true), vec![0, 1, 2, 3]);
    let mut five = four.clone();
    five.push("e/util.rs".to_string());
    let index = FileIndex::build(&five);
    assert!(index.lookup("util", true).is_empty());
}

#[test]
fn relative_imports_resolve_against_the_importing_folder() {
    let index = FileIndex::build(&strings(&["src/engine.rs", "src/quiet.rs"]));
    assert_eq!(index.resolve(&strings(&["engine"]), "src/app.rs"), vec![0]);
    assert_eq!(index.resolve(&strings(&[".", "quiet"]), "src/app.rs"), vec![1]);
    assert_eq!(
        index.resolve(&strings(&["..", "src", "quiet"]), "src/app.rs"),
        vec![1]
    );
    assert_eq!(index.resolve(&strings(&[".", "engine"]), "app.rs"), vec![0]);
    assert!(index.resolve(&strings(&[".", "missing"]), "src/app.rs").is_empty());
    assert!(index.resolve(&Vec::new(), "src/app.rs").is_empty());
}

#[test]
fn a_file_importing_itself_is_not_counted() {
    let files = strings(&["engine.rs", "caller.rs"]);
    let mentions = vec![
        vec![strings(&["engine"])],
        vec![strings(&["engine"]), strings(&["engine", "run"])],
    ];
    assert_eq!(count_references(&files, &mentions), vec![1, 0]);
}
