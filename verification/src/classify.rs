//! What a file is for, whether it is worth reading, and the counted facts
//! about its text.

use vstd::prelude::*;
use crate::model::Category;
use crate::paths::{file_name, file_name_exec, names, names_exec};
use crate::text::{
    contains_seq, contains_str, eq_str, lower, lower_exec, starts_with, starts_with_str,
};

verus! {

/// A folder name that marks everything below it as tests.
pub open spec fn is_test_dir(n: Seq<char>) -> bool {
    n == "test"@ || n == "tests"@ || n == "spec"@ || n == "specs"@ || n == "__tests__"@
}

/// A folder name that marks the scripts below it as tooling.
pub open spec fn is_script_dir(n: Seq<char>) -> bool {
    n == "script"@ || n == "scripts"@ || n == "bin"@ || n == "tools"@
}

/// A folder name that marks the scripts below it as interface code.
pub open spec fn is_web_dir(n: Seq<char>) -> bool {
    n == "web"@ || n == "webapp"@ || n == "webinterface"@ || n == "frontend"@ || n == "client"@
        || n == "ui"@ || n == "components"@ || n == "views"@ || n == "public"@ || n == "styles"@
}

/// An extension a shell or scripting language is written with.
pub open spec fn is_script_ext(e: Seq<char>) -> bool {
    e == "js"@ || e == "ts"@ || e == "py"@ || e == "rb"@ || is_shell_ext(e)
}

pub open spec fn is_shell_ext(e: Seq<char>) -> bool {
    e == "sh"@ || e == "bash"@ || e == "zsh"@ || e == "fish"@ || e == "ps1"@ || e == "bat"@
}

pub open spec fn is_source_ext(e: Seq<char>) -> bool {
    e == "rs"@ || e == "go"@ || e == "c"@ || e == "cc"@ || e == "cpp"@ || e == "cxx"@ || e
        == "h"@ || e == "hpp"@ || e == "cs"@ || e == "java"@ || e == "kt"@ || e == "swift"@ || e
        == "rb"@ || e == "php"@ || e == "py"@ || e == "ex"@ || e == "exs"@ || e == "scala"@ || e
        == "fs"@ || e == "fsx"@
}

pub open spec fn is_web_ext(e: Seq<char>) -> bool {
    e == "jsx"@ || e == "tsx"@ || e == "vue"@ || e == "svelte"@ || e == "html"@ || e == "css"@
        || e == "scss"@ || e == "sass"@ || e == "less"@
}

pub open spec fn is_docs_ext(e: Seq<char>) -> bool {
    e == "md"@ || e == "mdx"@ || e == "rst"@ || e == "txt"@ || e == "adoc"@
}

pub open spec fn is_config_ext(e: Seq<char>) -> bool {
    e == "json"@ || e == "jsonc"@ || e == "toml"@ || e == "yaml"@ || e == "yml"@ || e == "xml"@
        || e == "ini"@ || e == "conf"@ || e == "config"@ || e == "properties"@ || e == "lock"@
}

pub open spec fn is_data_ext(e: Seq<char>) -> bool {
    e == "sql"@ || e == "csv"@ || e == "tsv"@ || e == "graphql"@ || e == "proto"@
}

pub open spec fn is_asset_ext(e: Seq<char>) -> bool {
    e == "png"@ || e == "jpg"@ || e == "jpeg"@ || e == "gif"@ || e == "webp"@ || e == "svg"@ || e
        == "ico"@ || e == "bmp"@ || e == "woff"@ || e == "woff2"@ || e == "ttf"@ || e == "mp3"@
        || e == "wav"@ || e == "mp4"@ || e == "webm"@
}

/// A build or task file known by its whole name.
pub open spec fn is_config_name(n: Seq<char>) -> bool {
    n == "dockerfile"@ || n == "makefile"@ || n == "justfile"@ || n == "procfile"@
}

/// The names of a path, lowercased.
pub open spec fn lower_names(path: Seq<char>) -> Seq<Seq<char>> {
    names(path).map_values(|n: Seq<char>| lower(n))
}

pub open spec fn some_name(ns: Seq<Seq<char>>, kind: int) -> bool {
    exists|i: int|
        0 <= i < ns.len() && (if kind == 0 {
            is_test_dir(#[trigger] ns[i])
        } else if kind == 1 {
            is_script_dir(ns[i])
        } else {
            is_web_dir(ns[i])
        })
}

/// What a file at `path`, with (lowercased) extension `ext`, is for.
pub open spec fn category_of(path: Seq<char>, ext: Seq<char>) -> Category {
    let file = lower(file_name(path));
    let ns = lower_names(path);
    if some_name(ns, 0) || contains_seq(file, ".test."@) || contains_seq(file, ".spec."@)
        || starts_with(file, "test_"@) {
        Category::Test
    } else if some_name(ns, 1) && is_script_ext(ext) {
        Category::Script
    } else if is_source_ext(ext) {
        Category::Source
    } else if ext == "js"@ || ext == "ts"@ {
        if some_name(ns, 2) {
            Category::Web
        } else {
            Category::Source
        }
    } else if is_web_ext(ext) {
        Category::Web
    } else if is_shell_ext(ext) {
        Category::Script
    } else if is_docs_ext(ext) {
        Category::Docs
    } else if is_config_ext(ext) {
        Category::Config
    } else if is_data_ext(ext) {
        Category::Data
    } else if is_asset_ext(ext) {
        Category::Asset
    } else if is_config_name(file) {
        Category::Config
    } else {
        Category::Other
    }
}

/// An extension that marks a file as binary.
pub open spec fn is_binary_ext(e: Seq<char>) -> bool {
    e == "png"@ || e == "jpg"@ || e == "jpeg"@ || e == "gif"@ || e == "webp"@ || e == "ico"@ || e
        == "bmp"@ || e == "woff"@ || e == "woff2"@ || e == "ttf"@ || e == "zip"@ || e == "gz"@ || e
        == "tar"@ || e == "pdf"@ || e == "mp3"@ || e == "wav"@ || e == "mp4"@ || e == "webm"@ || e
        == "exe"@ || e == "dll"@ || e == "so"@ || e == "dylib"@
}

fn is_test_dir_exec(n: &[char]) -> (r: bool)
    ensures
        r == is_test_dir(n@),
{
    eq_str(n, "test") || eq_str(n, "tests") || eq_str(n, "spec") || eq_str(n, "specs") || eq_str(
        n,
        "__tests__",
    )
}

fn is_script_dir_exec(n: &[char]) -> (r: bool)
    ensures
        r == is_script_dir(n@),
{
    eq_str(n, "script") || eq_str(n, "scripts") || eq_str(n, "bin") || eq_str(n, "tools")
}

fn is_web_dir_exec(n: &[char]) -> (r: bool)
    ensures
        r == is_web_dir(n@),
{
    eq_str(n, "web") || eq_str(n, "webapp") || eq_str(n, "webinterface") || eq_str(n, "frontend")
        || eq_str(n, "client") || eq_str(n, "ui") || eq_str(n, "components") || eq_str(n, "views")
        || eq_str(n, "public") || eq_str(n, "styles")
}

fn is_shell_ext_exec(e: &[char]) -> (r: bool)
    ensures
        r == is_shell_ext(e@),
{
    eq_str(e, "sh") || eq_str(e, "bash") || eq_str(e, "zsh") || eq_str(e, "fish") || eq_str(
        e,
        "ps1",
    ) || eq_str(e, "bat")
}

fn is_script_ext_exec(e: &[char]) -> (r: bool)
    ensures
        r == is_script_ext(e@),
{
    eq_str(e, "js") || eq_str(e, "ts") || eq_str(e, "py") || eq_str(e, "rb") || is_shell_ext_exec(
        e,
    )
}

fn is_source_ext_exec(e: &[char]) -> (r: bool)
    ensures
        r == is_source_ext(e@),
{
    eq_str(e, "rs") || eq_str(e, "go") || eq_str(e, "c") || eq_str(e, "cc") || eq_str(e, "cpp")
        || eq_str(e, "cxx") || eq_str(e, "h") || eq_str(e, "hpp") || eq_str(e, "cs") || eq_str(
        e,
        "java",
    ) || eq_str(e, "kt") || eq_str(e, "swift") || eq_str(e, "rb") || eq_str(e, "php") || eq_str(
        e,
        "py",
    ) || eq_str(e, "ex") || eq_str(e, "exs") || eq_str(e, "scala") || eq_str(e, "fs") || eq_str(
        e,
        "fsx",
    )
}

fn is_web_ext_exec(e: &[char]) -> (r: bool)
    ensures
        r == is_web_ext(e@),
{
    eq_str(e, "jsx") || eq_str(e, "tsx") || eq_str(e, "vue") || eq_str(e, "svelte") || eq_str(
        e,
        "html",
    ) || eq_str(e, "css") || eq_str(e, "scss") || eq_str(e, "sass") || eq_str(e, "less")
}

fn is_docs_ext_exec(e: &[char]) -> (r: bool)
    ensures
        r == is_docs_ext(e@),
{
    eq_str(e, "md") || eq_str(e, "mdx") || eq_str(e, "rst") || eq_str(e, "txt") || eq_str(e, "adoc")
}

fn is_config_ext_exec(e: &[char]) -> (r: bool)
    ensures
        r == is_config_ext(e@),
{
    eq_str(e, "json") || eq_str(e, "jsonc") || eq_str(e, "toml") || eq_str(e, "yaml") || eq_str(
        e,
        "yml",
    ) || eq_str(e, "xml") || eq_str(e, "ini") || eq_str(e, "conf") || eq_str(e, "config")
        || eq_str(e, "properties") || eq_str(e, "lock")
}

fn is_data_ext_exec(e: &[char]) -> (r: bool)
    ensures
        r == is_data_ext(e@),
{
    eq_str(e, "sql") || eq_str(e, "csv") || eq_str(e, "tsv") || eq_str(e, "graphql") || eq_str(
        e,
        "proto",
    )
}

fn is_asset_ext_exec(e: &[char]) -> (r: bool)
    ensures
        r == is_asset_ext(e@),
{
    eq_str(e, "png") || eq_str(e, "jpg") || eq_str(e, "jpeg") || eq_str(e, "gif") || eq_str(
        e,
        "webp",
    ) || eq_str(e, "svg") || eq_str(e, "ico") || eq_str(e, "bmp") || eq_str(e, "woff") || eq_str(
        e,
        "woff2",
    ) || eq_str(e, "ttf") || eq_str(e, "mp3") || eq_str(e, "wav") || eq_str(e, "mp4") || eq_str(
        e,
        "webm",
    )
}

fn is_config_name_exec(n: &[char]) -> (r: bool)
    ensures
        r == is_config_name(n@),
{
    eq_str(n, "dockerfile") || eq_str(n, "makefile") || eq_str(n, "justfile") || eq_str(
        n,
        "procfile",
    )
}

fn is_binary_ext_exec(e: &[char]) -> (r: bool)
    ensures
        r == is_binary_ext(e@),
{
    eq_str(e, "png") || eq_str(e, "jpg") || eq_str(e, "jpeg") || eq_str(e, "gif") || eq_str(
        e,
        "webp",
    ) || eq_str(e, "ico") || eq_str(e, "bmp") || eq_str(e, "woff") || eq_str(e, "woff2")
        || eq_str(e, "ttf") || eq_str(e, "zip") || eq_str(e, "gz") || eq_str(e, "tar") || eq_str(
        e,
        "pdf",
    ) || eq_str(e, "mp3") || eq_str(e, "wav") || eq_str(e, "mp4") || eq_str(e, "webm") || eq_str(
        e,
        "exe",
    ) || eq_str(e, "dll") || eq_str(e, "so") || eq_str(e, "dylib")
}

/// Whether any of `ns` is a folder name of the given kind (0 tests, 1
/// scripts, 2 interface code).
fn some_name_exec(ns: &Vec<Vec<char>>, kind: u8) -> (r: bool)
    requires
        kind <= 2,
    ensures
        r == some_name(ns@.map_values(|n: Vec<char>| n@), kind as int),
{
    let ghost views = ns@.map_values(|n: Vec<char>| n@);
    let mut i: usize = 0;
    while i < ns.len()
        invariant
            i <= ns.len(),
            kind <= 2,
            views == ns@.map_values(|n: Vec<char>| n@),
            forall|j: int|
                0 <= j < i ==> !(if kind == 0 {
                    is_test_dir(#[trigger] views[j])
                } else if kind == 1 {
                    is_script_dir(views[j])
                } else {
                    is_web_dir(views[j])
                }),
        decreases ns.len() - i,
    {
        let n = &ns[i];
        let hit = if kind == 0 {
            is_test_dir_exec(n)
        } else if kind == 1 {
            is_script_dir_exec(n)
        } else {
            is_web_dir_exec(n)
        };
        assert(views[i as int] == n@);
        if hit {
            return true;
        }
        i = i + 1;
    }
    false
}

/// Lowercases every name of a path.
fn lower_all(ns: &Vec<Vec<char>>) -> (r: Vec<Vec<char>>)
    ensures
        r@.map_values(|n: Vec<char>| n@) == ns@.map_values(|n: Vec<char>| n@).map_values(
            |n: Seq<char>| lower(n),
        ),
{
    let mut r: Vec<Vec<char>> = Vec::new();
    let mut i: usize = 0;
    while i < ns.len()
        invariant
            i <= ns.len(),
            r@.len() == i,
            forall|j: int| 0 <= j < i ==> #[trigger] r@[j]@ == lower(ns@[j]@),
        decreases ns.len() - i,
    {
        r.push(lower_exec(&ns[i]));
        i = i + 1;
    }
    assert(r@.map_values(|n: Vec<char>| n@) =~= ns@.map_values(|n: Vec<char>| n@).map_values(
        |n: Seq<char>| lower(n),
    ));
    r
}

/// What a file is for, from where it sits and its lowercased extension.
///
/// Test folders and test-shaped names win over everything; scripts under a
/// tooling folder come next; then the extension decides, with JavaScript and
/// TypeScript counted as interface code only under an interface folder.
pub fn classify(path: &str, extension: &str) -> (c: Category)
    ensures
        c == category_of(path@, extension@),
{
    let p = chars_of_path(path);
    let ext = crate::text::chars_of(extension);
    let file = lower_exec(&file_name_exec(&p));
    let raw = names_exec(&p);
    let ns = lower_all(&raw);
    proof {
        assert(ns@.map_values(|n: Vec<char>| n@) == lower_names(path@));
    }
    if some_name_exec(&ns, 0) || contains_str(&file, ".test.") || contains_str(&file, ".spec.")
        || starts_with_str(&file, "test_") {
        return Category::Test;
    }
    if some_name_exec(&ns, 1) && is_script_ext_exec(&ext) {
        return Category::Script;
    }
    if is_source_ext_exec(&ext) {
        Category::Source
    } else if eq_str(&ext, "js") || eq_str(&ext, "ts") {
        if some_name_exec(&ns, 2) {
            Category::Web
        } else {
            Category::Source
        }
    } else if is_web_ext_exec(&ext) {
        Category::Web
    } else if is_shell_ext_exec(&ext) {
        Category::Script
    } else if is_docs_ext_exec(&ext) {
        Category::Docs
    } else if is_config_ext_exec(&ext) {
        Category::Config
    } else if is_data_ext_exec(&ext) {
        Category::Data
    } else if is_asset_ext_exec(&ext) {
        Category::Asset
    } else if is_config_name_exec(&file) {
        Category::Config
    } else {
        Category::Other
    }
}

fn chars_of_path(path: &str) -> (r: Vec<char>)
    ensures
        r@ == path@,
{
    crate::text::chars_of(path)
}

/// Whether a file's contents are worth reading as text: its (lowercased)
/// extension is not a known binary one and it is not a `Cargo.lock`.
pub fn is_text_file(extension: &str, name: &str) -> (r: bool)
    ensures
        r == (!is_binary_ext(extension@) && name@ != "Cargo.lock"@),
{
    let e = crate::text::chars_of(extension);
    let n = crate::text::chars_of(name);
    !is_binary_ext_exec(&e) && !eq_str(&n, "Cargo.lock")
}

/// Interface files are web code: outside any test folder, with a file name
/// that does not mark a test, a file with extension `jsx`, `tsx`, `vue`,
/// `svelte`, `html`, `css`, `scss`, `sass` or `less` is classified as web
/// code, wherever it stands.
pub proof fn law_interface_files_are_web(path: Seq<char>, ext: Seq<char>)
    requires
        ext == "jsx"@ || ext == "tsx"@ || ext == "vue"@ || ext == "svelte"@ || ext == "html"@ || ext == "css"@ || ext
            == "scss"@ || ext == "sass"@ || ext == "less"@,
        forall|i: int| 0 <= i < names(path).len() ==> !is_test_dir(lower(#[trigger] names(path)[i])),
        !contains_seq(lower(file_name(path)), ".test."@),
        !contains_seq(lower(file_name(path)), ".spec."@),
        !starts_with(lower(file_name(path)), "test_"@),
    ensures
        category_of(path, ext) == Category::Web,
{
    let ns = lower_names(path);
    reveal_strlit("jsx");
    reveal_strlit("tsx");
    reveal_strlit("vue");
    reveal_strlit("svelte");
    reveal_strlit("html");
    reveal_strlit("css");
    reveal_strlit("scss");
    reveal_strlit("sass");
    reveal_strlit("less");
    reveal_strlit("js");
    reveal_strlit("ts");
    reveal_strlit("py");
    reveal_strlit("rb");
    reveal_strlit("sh");
    reveal_strlit("bash");
    reveal_strlit("zsh");
    reveal_strlit("fish");
    reveal_strlit("ps1");
    reveal_strlit("bat");
    reveal_strlit("rs");
    reveal_strlit("go");
    reveal_strlit("c");
    reveal_strlit("cc");
    reveal_strlit("cpp");
    reveal_strlit("cxx");
    reveal_strlit("h");
    reveal_strlit("hpp");
    reveal_strlit("cs");
    reveal_strlit("java");
    reveal_strlit("kt");
    reveal_strlit("swift");
    reveal_strlit("php");
    reveal_strlit("ex");
    reveal_strlit("exs");
    reveal_strlit("scala");
    reveal_strlit("fs");
    reveal_strlit("fsx");
    if ext == "jsx"@ {
        assert(ext.len() == 3 && ext[0] == 'j' && ext[1] == 's' && ext[2] == 'x');
    }
    if ext == "tsx"@ {
        assert(ext.len() == 3 && ext[0] == 't' && ext[1] == 's' && ext[2] == 'x');
    }
    if ext == "vue"@ {
        assert(ext.len() == 3 && ext[0] == 'v' && ext[1] == 'u' && ext[2] == 'e');
    }
    if ext == "svelte"@ {
        assert(ext.len() == 6 && ext[0] == 's' && ext[1] == 'v' && ext[2] == 'e' && ext[3] == 'l' && ext[4] == 't' && ext[5] == 'e');
    }
    if ext == "html"@ {
        assert(ext.len() == 4 && ext[0] == 'h' && ext[1] == 't' && ext[2] == 'm' && ext[3] == 'l');
    }
    if ext == "css"@ {
        assert(ext.len() == 3 && ext[0] == 'c' && ext[1] == 's' && ext[2] == 's');
    }
    if ext == "scss"@ {
        assert(ext.len() == 4 && ext[0] == 's' && ext[1] == 'c' && ext[2] == 's' && ext[3] == 's');
    }
    if ext == "sass"@ {
        assert(ext.len() == 4 && ext[0] == 's' && ext[1] == 'a' && ext[2] == 's' && ext[3] == 's');
    }
    if ext == "less"@ {
        assert(ext.len() == 4 && ext[0] == 'l' && ext[1] == 'e' && ext[2] == 's' && ext[3] == 's');
    }
    assert(!is_script_ext(ext));
    assert(!is_source_ext(ext));
    assert(ext != "js"@ && ext != "ts"@);
    assert(is_web_ext(ext));
    assert(!some_name(ns, 0)) by {
        if some_name(ns, 0) {
            let i = choose|i: int| 0 <= i < ns.len() && is_test_dir(#[trigger] ns[i]);
            assert(ns[i] == lower(names(path)[i]));
        }
    }
}

/// Tests are tests, whatever they are written in: a file under a folder
/// named `test`, `tests`, `spec`, `specs` or `__tests__` (in any case), or
/// whose lowercased name holds `.test.` or `.spec.` or starts with `test_`,
/// is classified as a test.
pub proof fn law_tests_are_tests(path: Seq<char>, ext: Seq<char>)
    requires
        (exists|i: int|
            0 <= i < names(path).len() && ({
                let n = lower(#[trigger] names(path)[i]);
                n == "test"@ || n == "tests"@ || n == "spec"@ || n == "specs"@ || n == "__tests__"@
            })) || contains_seq(lower(file_name(path)), ".test."@) || contains_seq(lower(file_name(path)), ".spec."@)
            || starts_with(lower(file_name(path)), "test_"@),
    ensures
        category_of(path, ext) == Category::Test,
{
    let ns = lower_names(path);
    if exists|i: int|
        0 <= i < names(path).len() && ({
            let n = lower(#[trigger] names(path)[i]);
            n == "test"@ || n == "tests"@ || n == "spec"@ || n == "specs"@ || n == "__tests__"@
        }) {
        let i = choose|i: int|
            0 <= i < names(path).len() && ({
                let n = lower(#[trigger] names(path)[i]);
                n == "test"@ || n == "tests"@ || n == "spec"@ || n == "specs"@ || n == "__tests__"@
            });
        assert(ns[i] == lower(names(path)[i]));
        assert(is_test_dir(ns[i]));
    }
}

/// Source code is source: outside test and tooling folders, with a name
/// that does not mark a test, a file with extension `rs`, `go`, `c`, `cc`,
/// `cpp`, `cxx`, `h`, `hpp`, `cs`, `java`, `kt`, `swift`, `rb`, `php`,
/// `py`, `ex`, `exs`, `scala`, `fs` or `fsx` is classified as source.
pub proof fn law_source_files_are_source(path: Seq<char>, ext: Seq<char>)
    requires
        ext == "rs"@ || ext == "go"@ || ext == "c"@ || ext == "cc"@ || ext == "cpp"@ || ext == "cxx"@ || ext == "h"@
            || ext == "hpp"@ || ext == "cs"@ || ext == "java"@ || ext == "kt"@ || ext == "swift"@ || ext == "rb"@ || ext
            == "php"@ || ext == "py"@ || ext == "ex"@ || ext == "exs"@ || ext == "scala"@ || ext == "fs"@ || ext
            == "fsx"@,
        forall|i: int|
            0 <= i < names(path).len() ==> !is_test_dir(lower(#[trigger] names(path)[i])) && !is_script_dir(
                lower(names(path)[i]),
            ),
        !contains_seq(lower(file_name(path)), ".test."@),
        !contains_seq(lower(file_name(path)), ".spec."@),
        !starts_with(lower(file_name(path)), "test_"@),
    ensures
        category_of(path, ext) == Category::Source,
{
    let ns = lower_names(path);
    assert(!some_name(ns, 0)) by {
        if some_name(ns, 0) {
            let i = choose|i: int| 0 <= i < ns.len() && is_test_dir(#[trigger] ns[i]);
            assert(ns[i] == lower(names(path)[i]));
        }
    }
    assert(!some_name(ns, 1)) by {
        if some_name(ns, 1) {
            let i = choose|i: int| 0 <= i < ns.len() && is_script_dir(#[trigger] ns[i]);
            assert(ns[i] == lower(names(path)[i]));
        }
    }
}

} // verus!
