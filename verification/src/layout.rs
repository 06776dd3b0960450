//! The integer rules of the layout: how busy a subtree is, how wards are
//! named, which archetype a file's holding takes, and the stable hash every
//! look-of-the-place decision is seeded from.

use vstd::prelude::*;
use crate::model::{Category, Metrics, Node, NodeKind};
use crate::paths::{at_most_two_components, component_count, file_name, file_name_exec, stem, stem_exec};
use crate::text::{chars_of, decimal, eq_str, lower, lower_exec, string_of};

verus! {

/// The archetype drawn on a holding, which fixes its silhouette.
#[derive(Clone, Copy, Debug, PartialEq, Eq, Structural)]
pub enum BuildingKind {
    /// An entry point: the keep at the heart of a town.
    Keep,
    /// Source code.
    Guildhall,
    /// Interface code.
    Market,
    /// Tests.
    Watchtower,
    /// Documentation.
    Scriptorium,
    /// Configuration.
    CouncilHall,
    /// Data.
    Granary,
    /// Assets.
    Stockpile,
    /// Scripts and tooling.
    Forge,
    /// Anything else.
    Cottage,
}

/// How many journeys a subtree generates: each file once for its own sake
/// (at least one, even for an empty folder), and once more for every
/// reference to it.
pub open spec fn arrivals_of(m: Metrics) -> int {
    (if m.file_count >= 1 {
        m.file_count as int
    } else {
        1
    }) + m.references
}

/// How many journeys a subtree generates.
pub fn arrivals(metrics: &Metrics) -> (n: usize)
    requires
        arrivals_of(*metrics) <= usize::MAX,
    ensures
        n == arrivals_of(*metrics),
{
    let files = if metrics.file_count >= 1 {
        metrics.file_count
    } else {
        1
    };
    files + metrics.references
}

/// The decimal digits of `n`, most significant first.
pub fn decimal_exec(n: usize) -> (r: Vec<char>)
    ensures
        r@ == decimal(n as nat),
    decreases n,
{
    let d = (n % 10) as u8;
    let c = (('0' as u8) + d) as char;
    assert(c == crate::text::digit((n % 10) as nat));
    if n < 10 {
        let mut r: Vec<char> = Vec::new();
        r.push(c);
        assert(r@ =~= seq![c]);
        r
    } else {
        let mut r = decimal_exec(n / 10);
        r.push(c);
        r
    }
}

/// `prefix` followed by the decimal digits of `n`.
pub fn with_number(prefix: &str, n: usize) -> (r: String)
    ensures
        r@ == prefix@ + decimal(n as nat),
{
    let mut all = chars_of(prefix);
    let digits = decimal_exec(n);
    let ghost start = all@;
    let mut i: usize = 0;
    while i < digits.len()
        invariant
            i <= digits.len(),
            all@ == start + digits@.take(i as int),
        decreases digits.len() - i,
    {
        all.push(digits[i]);
        i = i + 1;
        assert(start + digits@.take(i as int) =~= (start + digits@.take((i - 1) as int)).push(
            digits@[i - 1],
        ));
    }
    assert(digits@.take(digits.len() as int) =~= digits@);
    string_of(&all)
}

/// The identifier a ward carries, from its position in the layout.
pub fn ward_id(index: usize) -> (r: String)
    ensures
        r@ == "ward-"@ + decimal(index as nat),
{
    with_number("ward-", index)
}

/// A file stem that marks an entry point.
pub open spec fn is_entry_stem(s: Seq<char>) -> bool {
    s == "main"@ || s == "app"@ || s == "application"@ || s == "server"@ || s == "lib"@ || s
        == "mod"@ || s == "index"@
}

/// The archetype of a file of `category` at `path`: an entry point near the
/// root of code becomes the keep, and otherwise the category decides.
pub open spec fn kind_for(category: Category, path: Seq<char>) -> BuildingKind {
    let entry = component_count(path) <= 2 && is_entry_stem(lower(stem(file_name(path)))) && (category
        == Category::Source || category == Category::Web || category == Category::Script);
    if entry {
        BuildingKind::Keep
    } else {
        match category {
            Category::Source => BuildingKind::Guildhall,
            Category::Web => BuildingKind::Market,
            Category::Test => BuildingKind::Watchtower,
            Category::Docs => BuildingKind::Scriptorium,
            Category::Config => BuildingKind::CouncilHall,
            Category::Data => BuildingKind::Granary,
            Category::Asset => BuildingKind::Stockpile,
            Category::Script => BuildingKind::Forge,
            Category::Other => BuildingKind::Cottage,
        }
    }
}

/// The archetype drawn on a node's holding; a folder is a cottage.
pub fn building_kind(node: &Node) -> (k: BuildingKind)
    ensures
        k == match node.kind {
            NodeKind::Directory => BuildingKind::Cottage,
            NodeKind::File { category } => kind_for(category, node.relative_path@),
        },
{
    let category = match node.kind {
        NodeKind::File { category } => category,
        NodeKind::Directory => return BuildingKind::Cottage,
    };
    let p = chars_of(node.relative_path.as_str());
    let s = lower_exec(&stem_exec(&file_name_exec(&p)));
    let shallow = at_most_two_components(&p);
    let entry_stem = eq_str(&s, "main") || eq_str(&s, "app") || eq_str(&s, "application") || eq_str(
        &s,
        "server",
    ) || eq_str(&s, "lib") || eq_str(&s, "mod") || eq_str(&s, "index");
    let code = match category {
        Category::Source | Category::Web | Category::Script => true,
        _ => false,
    };
    if shallow && entry_stem && code {
        return BuildingKind::Keep;
    }
    match category {
        Category::Source => BuildingKind::Guildhall,
        Category::Web => BuildingKind::Market,
        Category::Test => BuildingKind::Watchtower,
        Category::Docs => BuildingKind::Scriptorium,
        Category::Config => BuildingKind::CouncilHall,
        Category::Data => BuildingKind::Granary,
        Category::Asset => BuildingKind::Stockpile,
        Category::Script => BuildingKind::Forge,
        Category::Other => BuildingKind::Cottage,
    }
}

/// The 32-bit hash of a byte string: start from 2166136261, then for each
/// byte multiply by 16777619 (wrapping) and fold the byte in with XOR.
pub open spec fn fnv_hash(bytes: Seq<u8>) -> u32
    decreases bytes.len(),
{
    if bytes.len() == 0 {
        2166136261
    } else {
        (((fnv_hash(bytes.drop_last()) as nat * 16777619) % 0x1_0000_0000) as u32) ^ (
        bytes.last() as u32)
    }
}

/// A hash of `value`'s UTF-8 bytes that stays put across runs and machines.
pub fn stable_hash(value: &str) -> (h: u32)
    ensures
        h == fnv_hash(vstd::utf8::encode_utf8(value@)),
{
    let bytes = value.as_bytes();
    let mut hash: u32 = 2166136261;
    let mut i: usize = 0;
    assert(bytes@.take(0) =~= Seq::<u8>::empty());
    while i < bytes.len()
        invariant
            i <= bytes.len(),
            bytes@ == vstd::utf8::encode_utf8(value@),
            hash == fnv_hash(bytes@.take(i as int)),
        decreases bytes.len() - i,
    {
        assert(bytes@.take(i + 1).drop_last() =~= bytes@.take(i as int));
        hash = hash.wrapping_mul(16777619) ^ (bytes[i] as u32);
        i = i + 1;
    }
    assert(bytes@.take(bytes.len() as int) =~= bytes@);
    hash
}

/// A file is drawn as the keep exactly when it is an entry point near the
/// root of code: a source, interface or script file whose path has at most
/// two components and whose lowercased stem is `main`, `app`,
/// `application`, `server`, `lib`, `mod` or `index`.
pub proof fn law_entry_points_are_keeps(category: Category, path: Seq<char>)
    ensures
        (kind_for(category, path) == BuildingKind::Keep) <==> ({
            let s = lower(stem(file_name(path)));
            &&& component_count(path) <= 2
            &&& (category == Category::Source || category == Category::Web || category == Category::Script)
            &&& (s == "main"@ || s == "app"@ || s == "application"@ || s == "server"@ || s == "lib"@ || s == "mod"@
                || s == "index"@)
        }),
{
}

/// Away from entry points the category alone decides the archetype, and
/// no two categories share one: two files of one category that are not
/// keeps are drawn alike, and files of different categories are drawn
/// differently.
pub proof fn law_the_category_decides_the_archetype(c1: Category, p1: Seq<char>, c2: Category, p2: Seq<char>)
    requires
        kind_for(c1, p1) != BuildingKind::Keep,
        kind_for(c2, p2) != BuildingKind::Keep,
    ensures
        (kind_for(c1, p1) == kind_for(c2, p2)) <==> (c1 == c2),
{
}

} // verus!
