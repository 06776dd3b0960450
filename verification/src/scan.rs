//! Reading a codebase into a tree: which folders and files are looked at,
//! how each file is analysed, and how the tree is assembled and totalled.
//!
//! The disk itself is read by the caller; everything decided about what was
//! read is here.

use vstd::prelude::*;
use crate::classify::{category_of, classify, is_binary_ext, is_text_file};
use crate::facts::{code_line_count, complexity_of, count_lines, estimate_complexity};
use crate::captions::{
    all_kept, heaviest_first, heaviest_first_of, law_biggest_places_come_first, law_every_town_is_framed,
    lemma_heaviest_first_bounds,
};
use crate::imports::{imported_paths, imports_of, ssv, sv};
use crate::model::{empty_dir, Category, Metrics, Node, NodeKind, NodeModel, Repository, ScanOptions};
use crate::paths::{extension, extension_exec, file_name, file_name_exec, names};
use crate::references::{count_references, referrers};
use crate::text::{
    chars_lt, chars_of, eq_str, lemma_chars_lt_irreflexive, lemma_chars_lt_transitive, lines, lower,
    lower_exec, starts_with, string_of,
};
use crate::tree::{
    fits, insert_file, inserted, law_aggregation_keeps_totals, metrics_of, organized, plus,
    sort_and_aggregate, totals_of, tree_total, zero_totals, Totals,
};

verus! {

/// The largest file whose text is read; larger files are counted by size
/// alone.
pub const MAX_ANALYZED_BYTES: u64 = 2097152;

// ---------------------------------------------------------------------------
// Which folders are looked at
// ---------------------------------------------------------------------------

/// A folder left out whatever the ignore files say: version control, and
/// what package managers and builds generate.
pub open spec fn is_hard_ignored(name: Seq<char>) -> bool {
    name == ".git"@ || name == ".hg"@ || name == ".svn"@ || name == "node_modules"@ || name
        == "target"@ || name == "vendor"@ || name == "dist"@ || name == "build"@ || name
        == ".next"@ || name == ".nuxt"@ || name == "coverage"@ || name == "__pycache__"@
}

/// Whether a walk into a repository may enter an entry of this name.
pub fn admits_entry(name: &str) -> (r: bool)
    ensures
        r == !is_hard_ignored(name@),
{
    let n = chars_of(name);
    !(eq_str(&n, ".git") || eq_str(&n, ".hg") || eq_str(&n, ".svn") || eq_str(&n, "node_modules")
        || eq_str(&n, "target") || eq_str(&n, "vendor") || eq_str(&n, "dist") || eq_str(
        &n,
        "build",
    ) || eq_str(&n, ".next") || eq_str(&n, ".nuxt") || eq_str(&n, "coverage") || eq_str(
        &n,
        "__pycache__",
    ))
}

/// Whether the search for repositories descends into a folder of this name:
/// not a hidden folder, and not one left out whatever the ignore files say.
pub fn searches_folder(name: &str) -> (r: bool)
    ensures
        r == (!starts_with(name@, "."@) && !is_hard_ignored(name@)),
{
    let n = chars_of(name);
    !crate::text::starts_with_str(&n, ".") && admits_entry(name)
}

/// What the search for repositories does at a folder.
#[derive(PartialEq, Eq, Structural, Clone, Copy, Debug)]
pub enum Discovery {
    /// The folder is a repository: it is recorded, and nothing below it is
    /// searched, so a repository is never merged into its parent.
    Repository,
    /// The folder is as deep as the search goes: it is left.
    Stop,
    /// The folder's sub-folders are searched.
    Descend,
}

/// The search for repositories at a folder `depth` levels below where it
/// began: a folder holding `.git` is a repository, and otherwise the search
/// goes on below it only while it is shallower than `max_depth`.
pub fn discover_step(has_git: bool, depth: usize, max_depth: usize) -> (r: Discovery)
    ensures
        r == if has_git {
            Discovery::Repository
        } else if depth >= max_depth {
            Discovery::Stop
        } else {
            Discovery::Descend
        },
{
    if has_git {
        Discovery::Repository
    } else if depth >= max_depth {
        Discovery::Stop
    } else {
        Discovery::Descend
    }
}

/// Whether the search for repositories enters an entry of a folder: a real
/// folder, not a link, under a name it searches.
pub fn enters_child(is_dir: bool, is_symlink: bool, name: &str) -> (r: bool)
    ensures
        r == (is_dir && !is_symlink && !starts_with(name@, "."@) && !is_hard_ignored(name@)),
{
    is_dir && !is_symlink && searches_folder(name)
}

// ---------------------------------------------------------------------------
// Which files are kept
// ---------------------------------------------------------------------------

/// Lexicographic order on paths written as their names, each name compared
/// as text: the order `Path`'s `Ord` gives.
pub open spec fn names_lt(a: Seq<Seq<char>>, b: Seq<Seq<char>>) -> bool
    decreases a.len(),
{
    if b.len() == 0 {
        false
    } else if a.len() == 0 {
        true
    } else if a[0] != b[0] {
        chars_lt(a[0], b[0])
    } else {
        names_lt(a.drop_first(), b.drop_first())
    }
}

/// Whether path `a` sorts before path `b`.
pub open spec fn path_before(a: Seq<char>, b: Seq<char>) -> bool {
    names_lt(names(a), names(b))
}

/// Where path `x` goes in an ordered run: after everything it does not sort
/// before.
pub open spec fn path_position(t: Seq<Seq<char>>, x: Seq<char>) -> int
    decreases t.len(),
{
    if t.len() == 0 || path_before(x, t[0]) {
        0
    } else {
        1 + path_position(t.drop_first(), x)
    }
}

/// `s` stably sorted in path order.
pub open spec fn sorted_paths(s: Seq<Seq<char>>) -> Seq<Seq<char>>
    decreases s.len(),
{
    if s.len() == 0 {
        Seq::<Seq<char>>::empty()
    } else {
        let t = sorted_paths(s.drop_last());
        t.insert(path_position(t, s.last()), s.last())
    }
}

proof fn lemma_path_position_bounds(t: Seq<Seq<char>>, x: Seq<char>)
    ensures
        0 <= path_position(t, x) <= t.len(),
    decreases t.len(),
{
    if t.len() > 0 && !path_before(x, t[0]) {
        lemma_path_position_bounds(t.drop_first(), x);
    }
}

pub proof fn lemma_sorted_paths_len(s: Seq<Seq<char>>)
    ensures
        sorted_paths(s).len() == s.len(),
    decreases s.len(),
{
    if s.len() > 0 {
        lemma_sorted_paths_len(s.drop_last());
        lemma_path_position_bounds(sorted_paths(s.drop_last()), s.last());
    }
}

/// Whether `a` sorts before `b` as a sequence of names.
fn names_lt_exec(a: &Vec<Vec<char>>, b: &Vec<Vec<char>>) -> (r: bool)
    ensures
        r == names_lt(crate::imports::cv(a@), crate::imports::cv(b@)),
{
    let ghost av = crate::imports::cv(a@);
    let ghost bv = crate::imports::cv(b@);
    let mut i: usize = 0;
    assert(av.skip(0) =~= av);
    assert(bv.skip(0) =~= bv);
    while i < a.len() && i < b.len() && crate::text::eq_chars(&a[i], &b[i])
        invariant
            i <= a.len(),
            i <= b.len(),
            av == crate::imports::cv(a@),
            bv == crate::imports::cv(b@),
            names_lt(av, bv) == names_lt(av.skip(i as int), bv.skip(i as int)),
        decreases a.len() - i,
    {
        assert(av.skip(i as int).drop_first() =~= av.skip(i + 1));
        assert(bv.skip(i as int).drop_first() =~= bv.skip(i + 1));
        i = i + 1;
    }
    if i == b.len() {
        false
    } else if i == a.len() {
        true
    } else {
        assert(av.skip(i as int)[0] == a@[i as int]@);
        assert(bv.skip(i as int)[0] == b@[i as int]@);
        crate::aliases::chars_lt_exec(&a[i], &b[i])
    }
}

/// A walked file as its path and its size in bytes.
pub open spec fn entries_view(files: Seq<(String, u64)>) -> Seq<(Seq<char>, u64)> {
    files.map_values(|e: (String, u64)| (e.0@, e.1))
}

/// The paths of walked files.
pub open spec fn entry_paths(s: Seq<(Seq<char>, u64)>) -> Seq<Seq<char>> {
    s.map_values(|e: (Seq<char>, u64)| e.0)
}

/// The sizes of walked files.
pub open spec fn entry_sizes(s: Seq<(Seq<char>, u64)>) -> Seq<u64> {
    s.map_values(|e: (Seq<char>, u64)| e.1)
}

/// Walked files stably sorted by path, each keeping its size.
pub open spec fn sorted_entries(s: Seq<(Seq<char>, u64)>) -> Seq<(Seq<char>, u64)>
    decreases s.len(),
{
    if s.len() == 0 {
        Seq::<(Seq<char>, u64)>::empty()
    } else {
        let t = sorted_entries(s.drop_last());
        t.insert(path_position(entry_paths(t), s.last().0), s.last())
    }
}

/// Positions in a path-ordered run of files, largest file first; files of
/// equal size keep path order.
pub open spec fn largest_first(e: Seq<(Seq<char>, u64)>) -> Seq<int> {
    heaviest_first_of(entry_sizes(e), all_kept(e.len() as int), e.len() as int)
}

/// The positions below `n` that `chosen` holds, in increasing order.
pub open spec fn kept_positions(chosen: Seq<int>, n: int) -> Seq<int>
    decreases n,
{
    if n <= 0 {
        Seq::<int>::empty()
    } else {
        let t = kept_positions(chosen, n - 1);
        if chosen.contains(n - 1) {
            t.push(n - 1)
        } else {
            t
        }
    }
}

/// How many of `n` files a scan allowed `max` files keeps.
pub open spec fn keep_count(n: int, max: int) -> int {
    if n <= max {
        n
    } else {
        max
    }
}

/// Which positions of the path-ordered run `e` a scan keeps: the `max`
/// largest files.
pub open spec fn chosen_files(e: Seq<(Seq<char>, u64)>, max: int) -> Seq<int> {
    largest_first(e).take(keep_count(e.len() as int, max))
}

/// The paths a scan allowed `max` files keeps of the walked files `s`: the
/// largest files, with ties going to the path that sorts first, listed in
/// path order.
pub open spec fn kept_files(s: Seq<(Seq<char>, u64)>, max: int) -> Seq<Seq<char>> {
    let e = sorted_entries(s);
    kept_positions(chosen_files(e, max), e.len() as int).map_values(|k: int| e[k].0)
}

proof fn lemma_sorted_entries(s: Seq<(Seq<char>, u64)>)
    ensures
        sorted_entries(s).len() == s.len(),
        entry_paths(sorted_entries(s)) == sorted_paths(entry_paths(s)),
    decreases s.len(),
{
    if s.len() > 0 {
        lemma_sorted_entries(s.drop_last());
        let t = sorted_entries(s.drop_last());
        let x = s.last();
        let p = path_position(entry_paths(t), x.0);
        lemma_path_position_bounds(entry_paths(t), x.0);
        assert(entry_paths(s.drop_last()) =~= entry_paths(s).drop_last());
        assert(entry_paths(s).last() == x.0);
        assert(entry_paths(t.insert(p, x)) =~= entry_paths(t).insert(p, x.0));
    }
}

/// Sorts walked files into path order, keeping equal paths in their order.
fn sort_entries(files: Vec<(String, u64)>) -> (r: Vec<(String, u64)>)
    ensures
        entries_view(r@) == sorted_entries(entries_view(files@)),
{
    let ghost orig = entries_view(files@);
    let mut sorted: Vec<(String, u64)> = Vec::new();
    let mut keys: Vec<Vec<Vec<char>>> = Vec::new();
    let mut i: usize = 0;
    assert(orig.take(0) =~= Seq::<(Seq<char>, u64)>::empty());
    while i < files.len()
        invariant
            i <= files.len(),
            orig == entries_view(files@),
            entries_view(sorted@) == sorted_entries(orig.take(i as int)),
            keys.len() == sorted.len(),
            forall|j: int| 0 <= j < keys.len() ==> crate::imports::cv(#[trigger] keys@[j]@) == names(
                sorted@[j].0@,
            ),
        decreases files.len() - i,
    {
        let path = files[i].0.clone();
        let size = files[i].1;
        let key = crate::paths::names_exec(&chars_of(path.as_str()));
        let ghost t = entries_view(sorted@);
        let ghost tp = entry_paths(t);
        let mut p: usize = 0;
        assert(tp.skip(0) =~= tp);
        while p < keys.len() && !names_lt_exec(&key, &keys[p])
            invariant
                p <= keys.len(),
                keys.len() == sorted.len(),
                t == entries_view(sorted@),
                tp == entry_paths(t),
                forall|j: int| 0 <= j < keys.len() ==> crate::imports::cv(#[trigger] keys@[j]@) == names(
                    sorted@[j].0@,
                ),
                crate::imports::cv(key@) == names(path@),
                path_position(tp, path@) == p + path_position(tp.skip(p as int), path@),
            decreases keys.len() - p,
        {
            assert(tp.skip(p as int)[0] == tp[p as int]);
            assert(tp.skip(p as int).drop_first() =~= tp.skip(p + 1));
            p = p + 1;
        }
        proof {
            if p < keys.len() {
                assert(tp.skip(p as int)[0] == tp[p as int]);
            }
            assert(path_position(tp, path@) == p);
            assert(orig.take(i + 1).drop_last() =~= orig.take(i as int));
            assert(orig.take(i + 1).last() == (path@, size));
        }
        sorted.insert(p, (path, size));
        keys.insert(p, key);
        assert(entries_view(sorted@) =~= t.insert(p as int, orig[i as int]));
        i = i + 1;
    }
    assert(orig.take(files.len() as int) =~= orig);
    sorted
}

/// The files a scan keeps of those the walk found, each given with its size
/// in bytes: the `max_files` largest, ties going to the path that sorts
/// first, listed in path order; and how many were left out.
pub fn select_files(files: Vec<(String, u64)>, options: &ScanOptions) -> (r: (Vec<String>, usize))
    ensures
        sv(r.0@) == kept_files(entries_view(files@), options.max_files as int),
        r.0.len() == keep_count(files.len() as int, options.max_files as int),
        r.1 == files.len() - keep_count(files.len() as int, options.max_files as int),
{
    let n = files.len();
    let ghost fv = entries_view(files@);
    let sorted = sort_entries(files);
    let ghost e = sorted_entries(fv);
    proof {
        lemma_sorted_entries(fv);
    }
    let mut sizes: Vec<u64> = Vec::new();
    let mut keep: Vec<bool> = Vec::new();
    let mut i: usize = 0;
    while i < n
        invariant
            i <= n,
            n == sorted.len(),
            e == entries_view(sorted@),
            sizes@ == entry_sizes(e).take(i as int),
            keep@ == all_kept(n as int).take(i as int),
        decreases n - i,
    {
        sizes.push(sorted[i].1);
        keep.push(true);
        i = i + 1;
        assert(sizes@ =~= entry_sizes(e).take(i as int));
        assert(keep@ =~= all_kept(n as int).take(i as int));
    }
    assert(sizes@ =~= entry_sizes(e));
    assert(keep@ =~= all_kept(n as int));
    let order = heaviest_first(&sizes, &keep);
    let ghost rank = largest_first(e);
    let m: usize = if n <= options.max_files {
        n
    } else {
        options.max_files
    };
    proof {
        law_every_town_is_framed(entry_sizes(e), n as int);
        lemma_heaviest_first_bounds(entry_sizes(e), all_kept(n as int), n as int);
        lemma_ranking_is_distinct(entry_sizes(e), n as int);
    }
    let mut chosen: Vec<bool> = Vec::new();
    let mut k: usize = 0;
    while k < n
        invariant
            k <= n,
            chosen@ == Seq::new(k as nat, |x: int| false),
        decreases n - k,
    {
        chosen.push(false);
        k = k + 1;
        assert(chosen@ =~= Seq::new(k as nat, |x: int| false));
    }
    assert(rank.take(0) =~= Seq::<int>::empty());
    let mut j: usize = 0;
    while j < m
        invariant
            j <= m,
            m == keep_count(n as int, options.max_files as int),
            m <= n,
            rank.len() == n,
            order@.map_values(|x: usize| x as int) == rank,
            forall|q: int| 0 <= q < n ==> 0 <= #[trigger] rank[q] < n,
            chosen.len() == n,
            forall|x: int| 0 <= x < n ==> (#[trigger] chosen@[x] <==> rank.take(j as int).contains(x)),
        decreases m - j,
    {
        let x = order[j];
        assert(rank[j as int] == x as int);
        chosen.set(x, true);
        proof {
            let before = rank.take(j as int);
            let after = rank.take(j + 1);
            assert(after =~= before.push(x as int));
            assert forall|y: int| 0 <= y < n implies (#[trigger] chosen@[y] <==> after.contains(y)) by {
                if y == x {
                    assert(after[j as int] == y);
                } else if after.contains(y) {
                    let q = choose|q: int| 0 <= q < after.len() && after[q] == y;
                    assert(q < j);
                    assert(before[q] == y);
                } else if before.contains(y) {
                    let q = choose|q: int| 0 <= q < before.len() && before[q] == y;
                    assert(after[q] == y);
                }
            }
        }
        j = j + 1;
    }
    let ghost ch = chosen_files(e, options.max_files as int);
    assert(ch == rank.take(m as int));
    let mut kept: Vec<String> = Vec::new();
    let mut k: usize = 0;
    while k < n
        invariant
            k <= n,
            n == sorted.len(),
            e == entries_view(sorted@),
            chosen.len() == n,
            forall|x: int| 0 <= x < n ==> (#[trigger] chosen@[x] <==> ch.contains(x)),
            sv(kept@) == kept_positions(ch, k as int).map_values(|q: int| e[q].0),
        decreases n - k,
    {
        let ghost before = kept_positions(ch, k as int);
        assert(e[k as int].0 == sorted@[k as int].0@);
        if chosen[k] {
            let path = sorted[k].0.clone();
            kept.push(path);
            assert(kept_positions(ch, k + 1) == before.push(k as int));
            assert(before.push(k as int).map_values(|q: int| e[q].0) =~= before.map_values(|q: int| e[q].0).push(e[k as int].0));
        } else {
            assert(kept_positions(ch, k + 1) == before);
        }
        k = k + 1;
        assert(sv(kept@) =~= kept_positions(ch, k as int).map_values(|q: int| e[q].0));
    }
    proof {
        lemma_kept_positions_count(ch, n as int);
    }
    (kept, n - m)
}

proof fn lemma_ranking_is_distinct(weights: Seq<u64>, n: int)
    requires
        0 <= n,
    ensures
        forall|a: int, b: int|
            0 <= a < b < heaviest_first_of(weights, all_kept(n), n).len() ==> #[trigger] heaviest_first_of(
                weights,
                all_kept(n),
                n,
            )[a] != #[trigger] heaviest_first_of(weights, all_kept(n), n)[b],
{
    law_biggest_places_come_first(weights, all_kept(n), n);
    let rank = heaviest_first_of(weights, all_kept(n), n);
    assert forall|a: int, b: int| 0 <= a < b < rank.len() implies #[trigger] rank[a] != #[trigger] rank[b] by {
        if rank[a] == rank[b] {
            assert(weights[rank[a]] == weights[rank[b]]);
        }
    }
}

/// The positions held by a list of distinct positions below `n` number as
/// many as the list.
proof fn lemma_kept_positions_count(c: Seq<int>, n: int)
    requires
        0 <= n,
        forall|a: int, b: int| 0 <= a < b < c.len() ==> #[trigger] c[a] != #[trigger] c[b],
        forall|q: int| 0 <= q < c.len() ==> 0 <= #[trigger] c[q] < n,
    ensures
        kept_positions(c, n).len() == c.len(),
{
    lemma_kept_positions_set(c, n);
    let kp = kept_positions(c, n);
    assert(c.no_duplicates()) by {
        assert forall|a: int, b: int| 0 <= a < c.len() && 0 <= b < c.len() && a != b implies c[a] != c[b] by {
            if a < b {
                assert(c[a] != c[b]);
            } else {
                assert(c[b] != c[a]);
            }
        }
    }
    c.unique_seq_to_set();
    kp.unique_seq_to_set();
    assert(kp.to_set() =~= c.to_set()) by {
        assert forall|x: int| kp.to_set().contains(x) <==> c.to_set().contains(x) by {
            if c.contains(x) {
                let q = choose|q: int| 0 <= q < c.len() && c[q] == x;
                assert(0 <= c[q] < n);
            }
        }
    }
}

proof fn lemma_kept_positions_set(c: Seq<int>, k: int)
    requires
        0 <= k,
    ensures
        kept_positions(c, k).no_duplicates(),
        forall|x: int| #[trigger] kept_positions(c, k).contains(x) <==> (0 <= x < k && c.contains(x)),
        forall|a: int, b: int|
            0 <= a < b < kept_positions(c, k).len() ==> #[trigger] kept_positions(c, k)[a] < #[trigger] kept_positions(
                c,
                k,
            )[b],
    decreases k,
{
    if k > 0 {
        lemma_kept_positions_set(c, k - 1);
        let t = kept_positions(c, k - 1);
        if c.contains(k - 1) {
            let u = t.push(k - 1);
            assert(u == kept_positions(c, k));
            assert forall|x: int| #[trigger] u.contains(x) <==> (0 <= x < k && c.contains(x)) by {
                if u.contains(x) {
                    let q = choose|q: int| 0 <= q < u.len() && u[q] == x;
                    if q < t.len() {
                        assert(t[q] == x);
                        assert(t.contains(x));
                    }
                }
                if 0 <= x < k - 1 && c.contains(x) {
                    assert(t.contains(x));
                    let q = choose|q: int| 0 <= q < t.len() && t[q] == x;
                    assert(u[q] == x);
                }
                if x == k - 1 {
                    assert(u[t.len() as int] == x);
                }
            }
            assert forall|a: int, b: int| 0 <= a < b < u.len() implies #[trigger] u[a] < #[trigger] u[b] by {
                if b == t.len() {
                    assert(t.contains(u[a]));
                } else {
                    assert(u[a] == t[a] && u[b] == t[b]);
                }
            }
            assert(u.no_duplicates()) by {
                assert forall|a: int, b: int| 0 <= a < u.len() && 0 <= b < u.len() && a != b implies u[a] != u[b] by {
                    if a < b {
                        assert(u[a] < u[b]);
                    } else {
                        assert(u[b] < u[a]);
                    }
                }
            }
        } else {
            assert(t == kept_positions(c, k));
            assert forall|x: int| #[trigger] t.contains(x) <==> (0 <= x < k && c.contains(x)) by {
                if x == k - 1 && t.contains(x) {
                    assert(0 <= x < k - 1);
                }
            }
        }
    }
}

// ---------------------------------------------------------------------------
// Analysing one file
// ---------------------------------------------------------------------------

/// The name a file's holding is labelled with: its final name, or the whole
/// path when it has none.
pub open spec fn label_of(relative: Seq<char>) -> Seq<char> {
    if file_name(relative).len() > 0 {
        file_name(relative)
    } else {
        relative
    }
}

/// A file's extension, lowercased.
pub open spec fn lower_extension(relative: Seq<char>) -> Seq<char> {
    lower(extension(file_name(relative)))
}

/// Whether a file's text is read: it is no larger than the limit and is not
/// known to be binary.
pub open spec fn reads_text(bytes: u64, relative: Seq<char>) -> bool {
    bytes <= MAX_ANALYZED_BYTES && !is_binary_ext(lower_extension(relative)) && label_of(relative)
        != "Cargo.lock"@
}

/// The counted facts about one file, from its size and, where it was read,
/// its text.
pub open spec fn file_metrics(relative: Seq<char>, bytes: u64, text: Option<Seq<char>>) -> Metrics {
    let category = category_of(relative, lower_extension(relative));
    match text {
        Some(t) => Metrics {
            bytes,
            lines: lines(t).len() as usize,
            code_lines: code_line_count(lines(t)) as usize,
            complexity: complexity_of(t, category) as usize,
            file_count: 1,
            references: 0,
        },
        None => Metrics {
            bytes,
            lines: 0,
            code_lines: 0,
            complexity: 0,
            file_count: 1,
            references: 0,
        },
    }
}

/// The node a file becomes.
pub open spec fn file_node(relative: Seq<char>, bytes: u64, text: Option<Seq<char>>) -> NodeModel {
    NodeModel {
        name: label_of(relative),
        path: relative,
        kind: NodeKind::File { category: category_of(relative, lower_extension(relative)) },
        metrics: file_metrics(relative, bytes, text),
        children: Seq::<NodeModel>::empty(),
    }
}

/// The characters of an optional text.
pub open spec fn text_view(text: Option<String>) -> Option<Seq<char>> {
    match text {
        Some(t) => Some(t@),
        None => None,
    }
}

/// Whether the text of a file of `bytes` bytes at `relative` is read.
pub fn should_read(bytes: u64, relative: &str) -> (r: bool)
    ensures
        r == reads_text(bytes, relative@),
{
    let p = chars_of(relative);
    let name = label_exec(&p);
    let ext = lower_exec(&extension_exec(&file_name_exec(&p)));
    bytes <= MAX_ANALYZED_BYTES && is_text_file(string_of(&ext).as_str(), string_of(&name).as_str())
}

fn label_exec(p: &[char]) -> (r: Vec<char>)
    ensures
        r@ == label_of(p@),
{
    let n = file_name_exec(p);
    if n.len() > 0 {
        n
    } else {
        crate::text::slice_chars(p, 0, p.len())
    }
}

/// Analyses one file: the node it becomes, and the paths its text imports.
///
/// `text` is the file's contents where [`should_read`] says they are read
/// (decoded with every invalid byte sequence replaced), and nothing
/// otherwise. Its branch count is a `usize` that may reach ten for every
/// character, which is what bounds the text's length.
pub fn analyze_file(relative: &str, bytes: u64, text: Option<String>) -> (r: (Node, Vec<Vec<String>>))
    requires
        text is Some <==> reads_text(bytes, relative@),
        text matches Some(t) ==> t@.len() < usize::MAX / 20,
    ensures
        r.0@ == file_node(relative@, bytes, text_view(text)),
        ssv(r.1@) == match text {
            Some(t) => imports_of(t@),
            None => Seq::<Seq<Seq<char>>>::empty(),
        },
{
    let p = chars_of(relative);
    let name = string_of(&label_exec(&p));
    let ext = string_of(&lower_exec(&extension_exec(&file_name_exec(&p))));
    let category = classify(relative, ext.as_str());
    let mut metrics = Metrics {
        bytes,
        lines: 0,
        code_lines: 0,
        complexity: 0,
        file_count: 1,
        references: 0,
    };
    let mut imports: Vec<Vec<String>> = Vec::new();
    match &text {
        Some(t) => {
            let (lines_count, code) = count_lines(t.as_str());
            metrics.lines = lines_count;
            metrics.code_lines = code;
            metrics.complexity = estimate_complexity(t.as_str(), category);
            imports = imported_paths(t.as_str());
        },
        None => {
            assert(ssv(imports@) =~= Seq::<Seq<Seq<char>>>::empty());
        },
    }
    let node = Node {
        name,
        relative_path: string_of(&p),
        kind: NodeKind::File { category },
        metrics,
        children: Vec::new(),
    };
    assert(Node::models(node.children@) =~= Seq::<NodeModel>::empty());
    (node, imports)
}

// ---------------------------------------------------------------------------
// Assembling the tree
// ---------------------------------------------------------------------------

/// `m` credited with `r` references.
pub open spec fn with_references(m: NodeModel, r: nat) -> NodeModel {
    NodeModel {
        name: m.name,
        path: m.path,
        kind: m.kind,
        metrics: Metrics {
            bytes: m.metrics.bytes,
            lines: m.metrics.lines,
            code_lines: m.metrics.code_lines,
            complexity: m.metrics.complexity,
            file_count: m.metrics.file_count,
            references: r as usize,
        },
        children: m.children,
    }
}

/// The first `k` files hung under `root` by their paths, in order.
pub open spec fn planted(root: NodeModel, paths: Seq<Seq<char>>, files: Seq<NodeModel>, k: int) -> NodeModel
    decreases k,
{
    if k <= 0 {
        root
    } else {
        inserted(planted(root, paths, files, k - 1), names(paths[k - 1]), files[k - 1])
    }
}

/// The files, each credited with how many of the others refer to it.
pub open spec fn credited(paths: Seq<Seq<char>>, files: Seq<NodeModel>, imports: Seq<Seq<Seq<Seq<char>>>>) -> Seq<NodeModel> {
    Seq::new(files.len(), |i: int| with_references(files[i], referrers(paths, imports, i, imports.len() as int)))
}

/// The repository tree a scan builds: every file credited with its
/// references and hung under its folders in the order given, then every
/// folder ordered and totalled.
pub open spec fn scanned_tree(
    root_name: Seq<char>,
    paths: Seq<Seq<char>>,
    files: Seq<NodeModel>,
    imports: Seq<Seq<Seq<Seq<char>>>>,
) -> NodeModel {
    organized(planted(empty_dir(root_name, Seq::<char>::empty()), paths, credited(paths, files, imports), paths.len() as int))
}

/// Builds the repository from the files a scan kept, in the order kept,
/// with the node each became and the imports each wrote.
pub fn build_repository(
    root_name: String,
    source_path: String,
    paths: Vec<String>,
    nodes: Vec<Node>,
    imports: Vec<Vec<Vec<String>>>,
    omitted_files: usize,
) -> (repo: Repository)
    requires
        nodes.len() == paths.len(),
        imports.len() == paths.len(),
        fits(tree_total(planted(empty_dir(root_name@, Seq::<char>::empty()), sv(paths@), credited(sv(paths@), Node::models(nodes@), imports@.map_values(|m: Vec<Vec<String>>| ssv(m@))), paths.len() as int))),
    ensures
        repo.root@ == scanned_tree(root_name@, sv(paths@), Node::models(nodes@), imports@.map_values(|m: Vec<Vec<String>>| ssv(m@))),
        repo.source_path@ == source_path@,
        repo.omitted_files == omitted_files,
{
    let ghost pv = sv(paths@);
    let ghost mv = imports@.map_values(|m: Vec<Vec<String>>| ssv(m@));
    let ghost models = Node::models(nodes@);
    let counts = count_references(paths.as_slice(), imports.as_slice());
    let ghost files = credited(pv, models, mv);
    proof {
        crate::model::lemma_models_index(nodes@);
    }
    let mut tree = Node::directory(root_name, String::new());
    let ghost root0 = tree@;
    let mut rest = nodes;
    let mut i: usize = 0;
    while rest.len() > 0
        invariant
            i <= paths.len(),
            rest.len() == paths.len() - i,
            pv == sv(paths@),
            files == credited(pv, models, mv),
            files.len() == paths.len(),
            counts.len() == paths.len(),
            forall|j: int| 0 <= j < paths.len() ==> #[trigger] counts@[j] == referrers(pv, mv, j, mv.len() as int),
            forall|j: int| 0 <= j < rest.len() ==> #[trigger] rest@[j]@ == models[i + j],
            models.len() == paths.len(),
            mv.len() == paths.len(),
            tree@ == planted(root0, pv, files, i as int),
        decreases rest.len(),
    {
        let ghost before = rest@;
        let mut node = rest.remove(0);
        assert(node@ == models[i as int]) by {
            assert(before[0]@ == models[i + 0]);
        }
        assert forall|j: int| 0 <= j < rest.len() implies #[trigger] rest@[j]@ == models[i + 1 + j] by {
            assert(rest@[j] == before[j + 1]);
        }
        node.metrics.references = counts[i];
        assert(node@ == files[i as int]) by {
            assert(Node::models(node.children@) == models[i as int].children);
        }
        assert(pv[i as int] == paths@[i as int]@);
        insert_file(&mut tree, paths[i].as_str(), node);
        i = i + 1;
    }
    let _ = sort_and_aggregate(&mut tree);
    Repository { root: tree, source_path, omitted_files }
}

/// The totals of the first `k` nodes, summed.
pub open spec fn sum_totals(files: Seq<NodeModel>, k: int) -> Totals
    decreases k,
{
    if k <= 0 {
        zero_totals()
    } else {
        plus(sum_totals(files, k - 1), tree_total(files[k - 1]))
    }
}

proof fn lemma_planted_total(root: NodeModel, paths: Seq<Seq<char>>, files: Seq<NodeModel>, k: int)
    requires
        crate::model::is_dir(root),
        tree_total(root) == zero_totals(),
        0 <= k,
    ensures
        crate::model::is_dir(planted(root, paths, files, k)),
        tree_total(planted(root, paths, files, k)) == sum_totals(files, k),
    decreases k,
{
    if k > 0 {
        lemma_planted_total(root, paths, files, k - 1);
        crate::tree::law_inserting_a_file_adds_its_totals(planted(root, paths, files, k - 1), names(paths[k - 1]), files[k - 1]);
    }
}

/// Builds the repository from the files a scan kept, as
/// [`build_repository`] does, where every folder's totals fit their fields;
/// nothing where some total would not, which is where the sums overflow.
pub fn assemble_repository(
    root_name: String,
    source_path: String,
    paths: Vec<String>,
    nodes: Vec<Node>,
    imports: Vec<Vec<Vec<String>>>,
    omitted_files: usize,
) -> (r: Option<Repository>)
    requires
        nodes.len() == paths.len(),
        imports.len() == paths.len(),
        forall|j: int| 0 <= j < nodes.len() ==> !crate::model::is_dir(#[trigger] nodes@[j]@),
    ensures
        r is Some <==> fits(tree_total(planted(empty_dir(root_name@, Seq::<char>::empty()), sv(paths@), credited(sv(paths@), Node::models(nodes@), imports@.map_values(|m: Vec<Vec<String>>| ssv(m@))), paths.len() as int))),
        r matches Some(repo) ==> repo.root@ == scanned_tree(root_name@, sv(paths@), Node::models(nodes@), imports@.map_values(|m: Vec<Vec<String>>| ssv(m@)))
            && repo.source_path@ == source_path@ && repo.omitted_files == omitted_files,
{
    let ghost pv = sv(paths@);
    let ghost mv = imports@.map_values(|m: Vec<Vec<String>>| ssv(m@));
    let ghost models = Node::models(nodes@);
    let ghost files = credited(pv, models, mv);
    let ghost root0 = empty_dir(root_name@, Seq::<char>::empty());
    proof {
        crate::model::lemma_models_index(nodes@);
        assert(crate::tree::children_total(root0.children) == zero_totals());
        lemma_planted_total(root0, pv, files, paths.len() as int);
    }
    let counts = count_references(paths.as_slice(), imports.as_slice());
    let mut bytes: u128 = 0;
    let mut lines: u128 = 0;
    let mut code_lines: u128 = 0;
    let mut complexity: u128 = 0;
    let mut file_count: u128 = 0;
    let mut references: u128 = 0;
    let mut j: usize = 0;
    while j < nodes.len()
        invariant
            j <= nodes.len(),
            nodes.len() == paths.len(),
            counts.len() == paths.len(),
            models == Node::models(nodes@),
            models.len() == nodes.len(),
            files == credited(pv, models, mv),
            forall|q: int| 0 <= q < nodes.len() ==> #[trigger] models[q] == nodes@[q]@,
            forall|q: int| 0 <= q < nodes.len() ==> !crate::model::is_dir(#[trigger] nodes@[q]@),
            forall|q: int| 0 <= q < paths.len() ==> #[trigger] counts@[q] == referrers(pv, mv, q, mv.len() as int),
            bytes == sum_totals(files, j as int).bytes,
            lines == sum_totals(files, j as int).lines,
            code_lines == sum_totals(files, j as int).code_lines,
            complexity == sum_totals(files, j as int).complexity,
            file_count == sum_totals(files, j as int).file_count,
            references == sum_totals(files, j as int).references,
            bytes <= j * 0x1_0000_0000_0000_0000,
            lines <= j * 0x1_0000_0000_0000_0000,
            code_lines <= j * 0x1_0000_0000_0000_0000,
            complexity <= j * 0x1_0000_0000_0000_0000,
            file_count <= j * 0x1_0000_0000_0000_0000,
            references <= j * 0x1_0000_0000_0000_0000,
        decreases nodes.len() - j,
    {
        let m = nodes[j].metrics;
        assert(tree_total(files[j as int]) == totals_of(Metrics {
            bytes: m.bytes,
            lines: m.lines,
            code_lines: m.code_lines,
            complexity: m.complexity,
            file_count: m.file_count,
            references: counts[j as int],
        }));
        assert(j * 0x1_0000_0000_0000_0000 + 0x1_0000_0000_0000_0000 == (j + 1) * 0x1_0000_0000_0000_0000) by (nonlinear_arith);
        assert((j + 1) * 0x1_0000_0000_0000_0000 <= 0x1_0000_0000_0000_0000 * 0x1_0000_0000_0000_0000) by (nonlinear_arith)
            requires j < 0x1_0000_0000_0000_0000;
        bytes = bytes + m.bytes as u128;
        lines = lines + m.lines as u128;
        code_lines = code_lines + m.code_lines as u128;
        complexity = complexity + m.complexity as u128;
        file_count = file_count + m.file_count as u128;
        references = references + counts[j] as u128;
        j = j + 1;
    }
    if bytes <= u64::MAX as u128 && lines <= usize::MAX as u128 && code_lines <= usize::MAX as u128
        && complexity <= usize::MAX as u128 && file_count <= usize::MAX as u128 && references
        <= usize::MAX as u128 {
        Some(build_repository(root_name, source_path, paths, nodes, imports, omitted_files))
    } else {
        None
    }
}


// ---------------------------------------------------------------------------
// Laws
// ---------------------------------------------------------------------------

proof fn lemma_names_lt_irreflexive(a: Seq<Seq<char>>)
    ensures
        !names_lt(a, a),
    decreases a.len(),
{
    if a.len() > 0 {
        lemma_names_lt_irreflexive(a.drop_first());
    }
}

proof fn lemma_names_lt_transitive(a: Seq<Seq<char>>, b: Seq<Seq<char>>, c: Seq<Seq<char>>)
    requires
        names_lt(a, b),
        names_lt(b, c),
    ensures
        names_lt(a, c),
    decreases a.len(),
{
    if a.len() > 0 {
        if a[0] != b[0] {
            if b[0] != c[0] {
                lemma_chars_lt_transitive(a[0], b[0], c[0]);
                if a[0] == c[0] {
                    lemma_chars_lt_irreflexive(a[0]);
                }
            }
        } else if b[0] != c[0] {
        } else {
            lemma_names_lt_transitive(a.drop_first(), b.drop_first(), c.drop_first());
        }
    }
}

proof fn lemma_path_position_order(t: Seq<Seq<char>>, x: Seq<char>)
    ensures
        forall|k: int| 0 <= k < path_position(t, x) ==> !path_before(x, #[trigger] t[k]),
        path_position(t, x) < t.len() ==> path_before(x, t[path_position(t, x)]),
    decreases t.len(),
{
    lemma_path_position_bounds(t, x);
    if t.len() > 0 && !path_before(x, t[0]) {
        lemma_path_position_order(t.drop_first(), x);
        lemma_path_position_bounds(t.drop_first(), x);
        assert forall|k: int| 0 <= k < path_position(t, x) implies !path_before(x, #[trigger] t[k]) by {
            if k > 0 {
                assert(t[k] == t.drop_first()[k - 1]);
            }
        }
        if path_position(t, x) < t.len() {
            assert(t[path_position(t, x)] == t.drop_first()[path_position(t.drop_first(), x)]);
        }
    }
}

proof fn lemma_sorted_paths_in_order(s: Seq<Seq<char>>)
    ensures
        forall|i: int, j: int|
            0 <= i < j < sorted_paths(s).len() ==> !path_before(
                #[trigger] sorted_paths(s)[j],
                #[trigger] sorted_paths(s)[i],
            ),
    decreases s.len(),
{
    if s.len() > 0 {
        lemma_sorted_paths_in_order(s.drop_last());
        let t = sorted_paths(s.drop_last());
        let x = s.last();
        let p = path_position(t, x);
        lemma_path_position_bounds(t, x);
        lemma_path_position_order(t, x);
        let u = t.insert(p, x);
        assert(u == sorted_paths(s));
        assert forall|i: int, j: int| 0 <= i < j < u.len() implies !path_before(#[trigger] u[j], #[trigger] u[i]) by {
            if j < p {
                assert(u[i] == t[i] && u[j] == t[j]);
            } else if j == p {
                assert(u[i] == t[i]);
            } else if i == p {
                let k = j - 1;
                assert(u[j] == t[k]);
                if path_before(t[k], x) {
                    if k > p {
                        lemma_names_lt_transitive(names(t[k]), names(x), names(t[p]));
                        assert(!path_before(t[k], t[p]));
                    } else {
                        lemma_names_lt_transitive(names(t[p]), names(x), names(t[p]));
                        lemma_names_lt_irreflexive(names(t[p]));
                    }
                }
            } else if i < p {
                assert(u[i] == t[i] && u[j] == t[j - 1]);
            } else {
                assert(u[i] == t[i - 1] && u[j] == t[j - 1]);
            }
        }
    }
}

proof fn lemma_sorted_paths_keep_every_path(s: Seq<Seq<char>>)
    ensures
        sorted_paths(s).to_multiset() =~= s.to_multiset(),
    decreases s.len(),
{
    broadcast use vstd::seq_lib::group_to_multiset_ensures, vstd::multiset::group_multiset_axioms;

    if s.len() > 0 {
        lemma_sorted_paths_keep_every_path(s.drop_last());
        let t = sorted_paths(s.drop_last());
        let x = s.last();
        let p = path_position(t, x);
        lemma_path_position_bounds(t, x);
        let u = t.insert(p, x);
        assert(u.remove(p) =~= t);
        assert(u[p] == x);
        assert(s.drop_last().push(x) =~= s);
        assert(u.contains(x));
        assert(u.to_multiset() =~= t.to_multiset().insert(x));
    }
}

/// The files a scan keeps come in path order: no kept path is listed after
/// one it sorts before.
pub proof fn law_files_are_kept_in_path_order(s: Seq<(Seq<char>, u64)>, max: int)
    requires
        0 <= max,
    ensures
        forall|i: int, j: int|
            0 <= i < j < kept_files(s, max).len() ==> !path_before(
                #[trigger] kept_files(s, max)[j],
                #[trigger] kept_files(s, max)[i],
            ),
{
    let e = sorted_entries(s);
    let n = e.len() as int;
    let c = chosen_files(e, max);
    let kp = kept_positions(c, n);
    lemma_sorted_entries(s);
    lemma_sorted_paths_in_order(entry_paths(s));
    lemma_kept_positions_set(c, n);
    let out = kept_files(s, max);
    assert forall|i: int, j: int| 0 <= i < j < out.len() implies !path_before(#[trigger] out[j], #[trigger] out[i]) by {
        assert(kp.contains(kp[i]) && kp.contains(kp[j]));
        assert(kp[i] < kp[j]);
        assert(out[i] == entry_paths(e)[kp[i]]);
        assert(out[j] == entry_paths(e)[kp[j]]);
    }
}

/// A scan that must leave files out leaves out the smallest: no file left
/// out is larger than one kept, and between files of equal size the one
/// whose path sorts first is kept.
pub proof fn law_a_scan_keeps_the_largest_files(s: Seq<(Seq<char>, u64)>, max: int)
    requires
        0 <= max,
    ensures
        forall|a: int, b: int|
            0 <= a < s.len() && 0 <= b < s.len() && #[trigger] chosen_files(sorted_entries(s), max).contains(a)
                && !#[trigger] chosen_files(sorted_entries(s), max).contains(b) ==> {
                &&& sorted_entries(s)[a].1 >= sorted_entries(s)[b].1
                &&& sorted_entries(s)[a].1 == sorted_entries(s)[b].1 ==> a < b
            },
{
    let e = sorted_entries(s);
    let n = e.len() as int;
    lemma_sorted_entries(s);
    let rank = largest_first(e);
    let m = keep_count(n, max);
    let c = chosen_files(e, max);
    law_every_town_is_framed(entry_sizes(e), n);
    law_biggest_places_come_first(entry_sizes(e), all_kept(n), n);
    assert forall|a: int, b: int|
        0 <= a < s.len() && 0 <= b < s.len() && #[trigger] c.contains(a) && !#[trigger] c.contains(b) implies {
        &&& e[a].1 >= e[b].1
        &&& e[a].1 == e[b].1 ==> a < b
    } by {
        let p = choose|p: int| 0 <= p < c.len() && c[p] == a;
        assert(rank.contains(b));
        let q = choose|q: int| 0 <= q < rank.len() && rank[q] == b;
        if q < m {
            assert(c[q] == b);
        }
        assert(rank[p] == a);
        assert(p < q);
        assert(entry_sizes(e)[a] == e[a].1);
        assert(entry_sizes(e)[b] == e[b].1);
    }
}

proof fn lemma_every_position_kept(c: Seq<int>, k: int)
    requires
        0 <= k,
        forall|x: int| 0 <= x < k ==> #[trigger] c.contains(x),
    ensures
        kept_positions(c, k) =~= Seq::new(k as nat, |i: int| i),
    decreases k,
{
    if k > 0 {
        lemma_every_position_kept(c, k - 1);
        assert(c.contains(k - 1));
    }
}

/// With room for every file, a scan keeps every path it was given, each as
/// often as given.
pub proof fn law_with_room_every_file_is_kept(s: Seq<(Seq<char>, u64)>, max: int)
    requires
        s.len() <= max,
    ensures
        kept_files(s, max).to_multiset() =~= entry_paths(s).to_multiset(),
{
    let e = sorted_entries(s);
    let n = e.len() as int;
    lemma_sorted_entries(s);
    lemma_sorted_paths_keep_every_path(entry_paths(s));
    let rank = largest_first(e);
    law_every_town_is_framed(entry_sizes(e), n);
    assert(chosen_files(e, max) =~= rank);
    lemma_every_position_kept(rank, n);
    assert(kept_files(s, max) =~= entry_paths(e));
}

proof fn lemma_sum_file_count(files: Seq<NodeModel>, k: int)
    requires
        0 <= k <= files.len(),
        forall|j: int| 0 <= j < files.len() ==> !crate::model::is_dir(#[trigger] files[j]),
        forall|j: int| 0 <= j < files.len() ==> #[trigger] files[j].metrics.file_count == 1,
    ensures
        sum_totals(files, k).file_count == k,
    decreases k,
{
    if k > 0 {
        lemma_sum_file_count(files, k - 1);
    }
}

/// A scanned repository's root counts each kept file once, and its facts,
/// like every folder's, are the sums over the files below it.
pub proof fn law_the_root_counts_every_kept_file(
    root_name: Seq<char>,
    paths: Seq<Seq<char>>,
    files: Seq<NodeModel>,
    imports: Seq<Seq<Seq<Seq<char>>>>,
)
    requires
        files.len() == paths.len(),
        imports.len() == paths.len(),
        forall|j: int| 0 <= j < files.len() ==> !crate::model::is_dir(#[trigger] files[j]),
        forall|j: int| 0 <= j < files.len() ==> #[trigger] files[j].metrics.file_count == 1,
    ensures
        crate::model::is_dir(scanned_tree(root_name, paths, files, imports)),
        tree_total(scanned_tree(root_name, paths, files, imports)).file_count == paths.len(),
        scanned_tree(root_name, paths, files, imports).metrics == metrics_of(
            tree_total(scanned_tree(root_name, paths, files, imports)),
        ),
{
    let root0 = empty_dir(root_name, Seq::<char>::empty());
    let credit = credited(paths, files, imports);
    let grown = planted(root0, paths, credit, paths.len() as int);
    assert(crate::tree::children_total(root0.children) == zero_totals());
    lemma_planted_total(root0, paths, credit, paths.len() as int);
    lemma_sum_file_count(credit, paths.len() as int);
    law_aggregation_keeps_totals(grown);
}

} // verus!
