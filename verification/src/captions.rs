//! The words a manifest shows: its title and subtitle, and the name and
//! caption of each place the camera can frame, biggest first.

use vstd::prelude::*;
use crate::layout::with_number;
use crate::manifest::{format_number, with_separators};
use crate::model::Repository;
use crate::text::{chars_of, decimal, string_of};

verus! {

/// What a framed place is called and what its caption says.
#[derive(Debug)]
pub struct Caption {
    /// The identifier the place is framed by.
    pub id: String,
    /// Its name.
    pub label: String,
    /// The line shown under the name.
    pub detail: String,
}

/// `a` followed by `b`.
pub fn joined(a: &str, b: &str) -> (r: String)
    ensures
        r@ == a@ + b@,
{
    let mut all = chars_of(a);
    let tail = chars_of(b);
    let ghost start = all@;
    let mut i: usize = 0;
    while i < tail.len()
        invariant
            i <= tail.len(),
            all@ == start + tail@.take(i as int),
        decreases tail.len() - i,
    {
        all.push(tail[i]);
        i = i + 1;
        assert(start + tail@.take(i as int) =~= (start + tail@.take((i - 1) as int)).push(tail@[i - 1]));
    }
    assert(tail@.take(tail.len() as int) =~= tail@);
    string_of(&all)
}

// ---------------------------------------------------------------------------
// Biggest first
// ---------------------------------------------------------------------------

/// Where item `x` goes among the items `t` (by position), already heaviest
/// first: before the first lighter one, so equal weights keep their order.
pub open spec fn weight_position(weights: Seq<u64>, t: Seq<int>, x: int) -> int
    decreases t.len(),
{
    if t.len() == 0 || weights[x] > weights[t[0]] {
        0
    } else {
        1 + weight_position(weights, t.drop_first(), x)
    }
}

/// The items among the first `n` that `keep` marks, by position, heaviest
/// first; items of equal weight keep the order they are listed in.
pub open spec fn heaviest_first_of(weights: Seq<u64>, keep: Seq<bool>, n: int) -> Seq<int>
    decreases n,
{
    if n <= 0 {
        Seq::<int>::empty()
    } else {
        let t = heaviest_first_of(weights, keep, n - 1);
        if keep[n - 1] {
            t.insert(weight_position(weights, t, n - 1), n - 1)
        } else {
            t
        }
    }
}

proof fn lemma_weight_position_bounds(weights: Seq<u64>, t: Seq<int>, x: int)
    ensures
        0 <= weight_position(weights, t, x) <= t.len(),
    decreases t.len(),
{
    if t.len() > 0 && !(weights[x] > weights[t[0]]) {
        lemma_weight_position_bounds(weights, t.drop_first(), x);
    }
}

proof fn lemma_weight_position_order(weights: Seq<u64>, t: Seq<int>, x: int)
    ensures
        forall|k: int| 0 <= k < weight_position(weights, t, x) ==> weights[x] <= weights[#[trigger] t[k]],
        weight_position(weights, t, x) < t.len() ==> weights[x] > weights[t[weight_position(weights, t, x)]],
    decreases t.len(),
{
    lemma_weight_position_bounds(weights, t, x);
    if t.len() > 0 && !(weights[x] > weights[t[0]]) {
        lemma_weight_position_order(weights, t.drop_first(), x);
        lemma_weight_position_bounds(weights, t.drop_first(), x);
        assert forall|k: int| 0 <= k < weight_position(weights, t, x) implies weights[x] <= weights[#[trigger] t[k]] by {
            if k > 0 {
                assert(t[k] == t.drop_first()[k - 1]);
            }
        }
        if weight_position(weights, t, x) < t.len() {
            assert(t[weight_position(weights, t, x)] == t.drop_first()[weight_position(weights, t.drop_first(), x)]);
        }
    }
}

pub proof fn lemma_heaviest_first_bounds(weights: Seq<u64>, keep: Seq<bool>, n: int)
    requires
        0 <= n,
    ensures
        heaviest_first_of(weights, keep, n).len() <= n,
        forall|k: int|
            0 <= k < heaviest_first_of(weights, keep, n).len() ==> 0 <= #[trigger] heaviest_first_of(weights, keep, n)[k] < n,
    decreases n,
{
    if n > 0 {
        lemma_heaviest_first_bounds(weights, keep, n - 1);
        let t = heaviest_first_of(weights, keep, n - 1);
        if keep[n - 1] {
            let p = weight_position(weights, t, n - 1);
            lemma_weight_position_bounds(weights, t, n - 1);
            assert forall|k: int| 0 <= k < heaviest_first_of(weights, keep, n).len() implies 0
                <= #[trigger] heaviest_first_of(weights, keep, n)[k] < n by {
                if k < p {
                    assert(heaviest_first_of(weights, keep, n)[k] == t[k]);
                } else if k > p {
                    assert(heaviest_first_of(weights, keep, n)[k] == t[k - 1]);
                }
            }
        }
    }
}

/// The positions of the items `keep` marks, heaviest first, equal weights
/// in the order listed.
pub fn heaviest_first(weights: &Vec<u64>, keep: &Vec<bool>) -> (r: Vec<usize>)
    requires
        keep.len() == weights.len(),
    ensures
        r@.map_values(|i: usize| i as int) == heaviest_first_of(weights@, keep@, weights.len() as int),
{
    let mut order: Vec<usize> = Vec::new();
    let mut i: usize = 0;
    while i < weights.len()
        invariant
            i <= weights.len(),
            keep.len() == weights.len(),
            order@.map_values(|k: usize| k as int) == heaviest_first_of(weights@, keep@, i as int),
        decreases weights.len() - i,
    {
        proof {
            lemma_heaviest_first_bounds(weights@, keep@, i as int);
        }
        if keep[i] {
            let ghost t = order@.map_values(|k: usize| k as int);
            let mut p: usize = 0;
            assert(t.skip(0) =~= t);
            while p < order.len() && !(weights[i] > weights[order[p]])
                invariant
                    p <= order.len(),
                    i < weights.len(),
                    t == order@.map_values(|k: usize| k as int),
                    forall|k: int| 0 <= k < t.len() ==> 0 <= #[trigger] t[k] < i,
                    weight_position(weights@, t, i as int) == p + weight_position(weights@, t.skip(p as int), i as int),
                decreases order.len() - p,
            {
                assert(t.skip(p as int)[0] == t[p as int]);
                assert(t.skip(p as int).drop_first() =~= t.skip(p + 1));
                p = p + 1;
            }
            proof {
                if p < order.len() {
                    assert(t.skip(p as int)[0] == t[p as int]);
                }
                assert(weight_position(weights@, t, i as int) == p);
            }
            order.insert(p, i);
            assert(order@.map_values(|k: usize| k as int) =~= t.insert(p as int, i as int));
        }
        i = i + 1;
    }
    order
}

/// The places a manifest frames are listed biggest first: no item comes
/// after a lighter one, and items of equal weight keep the order they had.
pub proof fn law_biggest_places_come_first(weights: Seq<u64>, keep: Seq<bool>, n: int)
    ensures
        forall|i: int, j: int|
            0 <= i < j < heaviest_first_of(weights, keep, n).len() ==> weights[#[trigger] heaviest_first_of(
                weights,
                keep,
                n,
            )[i]] >= weights[#[trigger] heaviest_first_of(weights, keep, n)[j]],
        forall|i: int, j: int|
            0 <= i < j < heaviest_first_of(weights, keep, n).len() && weights[heaviest_first_of(weights, keep, n)[i]]
                == weights[heaviest_first_of(weights, keep, n)[j]] ==> #[trigger] heaviest_first_of(weights, keep, n)[i]
                < #[trigger] heaviest_first_of(weights, keep, n)[j],
    decreases n,
{
    if n > 0 {
        law_biggest_places_come_first(weights, keep, n - 1);
        let t = heaviest_first_of(weights, keep, n - 1);
        let x = n - 1;
        if keep[x] {
            lemma_heaviest_first_bounds(weights, keep, n - 1);
            let p = weight_position(weights, t, x);
            lemma_weight_position_bounds(weights, t, x);
            lemma_weight_position_order(weights, t, x);
            let u = t.insert(p, x);
            assert(u == heaviest_first_of(weights, keep, n));
            assert forall|i: int, j: int| 0 <= i < j < u.len() implies weights[#[trigger] u[i]] >= weights[#[trigger] u[j]] by {
                if j < p {
                    assert(u[i] == t[i] && u[j] == t[j]);
                } else if j == p {
                    assert(u[i] == t[i]);
                } else if i == p {
                    assert(u[j] == t[j - 1]);
                    if j - 1 > p {
                        assert(weights[t[p]] >= weights[t[j - 1]]);
                    }
                } else if i < p {
                    assert(u[i] == t[i] && u[j] == t[j - 1]);
                } else {
                    assert(u[i] == t[i - 1] && u[j] == t[j - 1]);
                }
            }
            assert forall|i: int, j: int|
                0 <= i < j < u.len() && weights[u[i]] == weights[u[j]] implies #[trigger] u[i] < #[trigger] u[j] by {
                if j < p {
                    assert(u[i] == t[i] && u[j] == t[j]);
                } else if j == p {
                    assert(u[i] == t[i]);
                } else if i == p {
                    assert(u[j] == t[j - 1]);
                    if j - 1 > p {
                        assert(weights[t[p]] >= weights[t[j - 1]]);
                    }
                } else if i < p {
                    assert(u[i] == t[i] && u[j] == t[j - 1]);
                } else {
                    assert(u[i] == t[i - 1] && u[j] == t[j - 1]);
                }
            }
        }
    }
}

// ---------------------------------------------------------------------------
// A single repository's city
// ---------------------------------------------------------------------------

/// What the manifest reads of a folder that became a ward.
#[derive(Debug)]
pub struct DistrictSummary {
    /// The folder's name.
    pub name: String,
    /// The folder's path from the repository root.
    pub path: String,
    /// Nesting depth, zero for a top-level folder.
    pub depth: usize,
    /// Files at or below the folder.
    pub files: usize,
}

/// A count of files and where they are: `1,234 files · src/engine`.
pub open spec fn files_at(files: usize, path: Seq<char>) -> Seq<char> {
    with_separators(files as nat) + " files · "@ + path
}

/// A count of files alone: `1,234 files`.
pub open spec fn files_alone(files: usize) -> Seq<char> {
    with_separators(files as nat) + " files"@
}

/// The title of a single repository's map.
pub open spec fn city_title_of(name: Seq<char>) -> Seq<char> {
    name + " · Repository City"@
}

/// The line under a single repository's title.
pub open spec fn city_subtitle_of(files: usize, lines: usize) -> Seq<char> {
    with_separators(files as nat) + " holdings across "@ + with_separators(lines as nat) + " lines"@
}

/// The title of a repository's map.
pub fn city_title(repository: &Repository) -> (r: String)
    ensures
        r@ == city_title_of(repository.root.name@),
{
    joined(repository.root.name.as_str(), " · Repository City")
}

/// The line under a repository's title: how many holdings, across how many
/// lines.
pub fn city_subtitle(repository: &Repository) -> (r: String)
    ensures
        r@ == city_subtitle_of(repository.root.metrics.file_count, repository.root.metrics.lines),
{
    let files = format_number(repository.root.metrics.file_count);
    let lines = format_number(repository.root.metrics.lines);
    let head = joined(files.as_str(), " holdings across ");
    let body = joined(head.as_str(), lines.as_str());
    joined(body.as_str(), " lines")
}

/// Whether each folder is a top-level one.
pub open spec fn top_level(districts: Seq<DistrictSummary>) -> Seq<bool> {
    districts.map_values(|d: DistrictSummary| d.depth == 0)
}

/// How many files each folder holds.
pub open spec fn district_files(districts: Seq<DistrictSummary>) -> Seq<u64> {
    districts.map_values(|d: DistrictSummary| d.files as u64)
}

/// The top-level folders of a repository, biggest first, as the places its
/// map frames: each is `ward-` and its place in that order, named after the
/// folder; the first list captions it with its file count and path, the
/// second with its file count alone.
pub fn district_captions(districts: &Vec<DistrictSummary>) -> (r: (Vec<Caption>, Vec<Caption>))
    ensures
        r.0.len() == heaviest_first_of(district_files(districts@), top_level(districts@), districts.len() as int).len(),
        r.1.len() == r.0.len(),
        forall|k: int|
            0 <= k < r.0.len() ==> {
                let d = districts@[heaviest_first_of(district_files(districts@), top_level(districts@), districts.len() as int)[k]];
                &&& (#[trigger] r.0@[k]).id@ == "ward-"@ + decimal(k as nat)
                &&& r.0@[k].label@ == d.name@
                &&& r.0@[k].detail@ == files_at(d.files, d.path@)
                &&& r.1@[k].id@ == "ward-"@ + decimal(k as nat)
                &&& r.1@[k].label@ == d.name@
                &&& r.1@[k].detail@ == files_alone(d.files)
            },
{
    let ghost view = districts@;
    let mut weights: Vec<u64> = Vec::new();
    let mut keep: Vec<bool> = Vec::new();
    let mut i: usize = 0;
    while i < districts.len()
        invariant
            i <= districts.len(),
            weights@ == district_files(districts@).take(i as int),
            keep@ == top_level(districts@).take(i as int),
        decreases districts.len() - i,
    {
        weights.push(districts[i].files as u64);
        keep.push(districts[i].depth == 0);
        i = i + 1;
        assert(weights@ =~= district_files(districts@).take(i as int));
        assert(keep@ =~= top_level(districts@).take(i as int));
    }
    assert(weights@ =~= district_files(districts@));
    assert(keep@ =~= top_level(districts@));
    let order = heaviest_first(&weights, &keep);
    let ghost ord = heaviest_first_of(district_files(districts@), top_level(districts@), districts.len() as int);
    proof {
        lemma_heaviest_first_bounds(district_files(districts@), top_level(districts@), districts.len() as int);
    }
    let mut locations: Vec<Caption> = Vec::new();
    let mut wards: Vec<Caption> = Vec::new();
    let mut k: usize = 0;
    while k < order.len()
        invariant
            k <= order.len(),
            order@.map_values(|x: usize| x as int) == ord,
            ord == heaviest_first_of(district_files(districts@), top_level(districts@), districts.len() as int),
            forall|j: int| 0 <= j < ord.len() ==> 0 <= #[trigger] ord[j] < districts.len(),
            locations.len() == k,
            wards.len() == k,
            forall|j: int|
                0 <= j < k ==> {
                    let d = districts@[ord[j]];
                    &&& (#[trigger] locations@[j]).id@ == "ward-"@ + decimal(j as nat)
                    &&& locations@[j].label@ == d.name@
                    &&& locations@[j].detail@ == files_at(d.files, d.path@)
                    &&& wards@[j].id@ == "ward-"@ + decimal(j as nat)
                    &&& wards@[j].label@ == d.name@
                    &&& wards@[j].detail@ == files_alone(d.files)
                },
        decreases order.len() - k,
    {
        assert(ord[k as int] == order@[k as int] as int);
        let d = &districts[order[k]];
        let count = format_number(d.files);
        let counted = joined(count.as_str(), " files · ");
        locations.push(Caption {
            id: with_number("ward-", k),
            label: string_of(&chars_of(d.name.as_str())),
            detail: joined(counted.as_str(), d.path.as_str()),
        });
        wards.push(Caption {
            id: with_number("ward-", k),
            label: string_of(&chars_of(d.name.as_str())),
            detail: joined(count.as_str(), " files"),
        });
        k = k + 1;
    }
    (locations, wards)
}

// ---------------------------------------------------------------------------
// A realm of towns
// ---------------------------------------------------------------------------

/// What the manifest reads of a town: its name and which repository it is.
#[derive(Debug)]
pub struct TownSummary {
    /// The town's name.
    pub name: String,
    /// The position of its repository among the realm's.
    pub repository_index: usize,
}

/// Every file a repository holds, those a scan left out included.
pub open spec fn repository_files(repository: Repository) -> int {
    repository.root.metrics.file_count + repository.omitted_files
}

/// The files of every repository of a realm.
pub open spec fn realm_files_of(repositories: Seq<Repository>) -> int
    decreases repositories.len(),
{
    if repositories.len() == 0 {
        0
    } else {
        realm_files_of(repositories.drop_last()) + repository_files(repositories.last())
    }
}

/// A town's caption: `1,234 files · 56,789 lines`.
pub open spec fn files_and_lines(files: usize, lines: usize) -> Seq<char> {
    with_separators(files as nat) + " files · "@ + with_separators(lines as nat) + " lines"@
}

/// The title of a realm's map.
pub open spec fn realm_title_of(world_name: Seq<char>) -> Seq<char> {
    world_name + " · Code Realm"@
}

/// The line under a realm's title: how many towns, with how many holdings.
pub open spec fn realm_subtitle_of(towns: nat, files: nat) -> Seq<char> {
    decimal(towns) + " towns · "@ + with_separators(files) + " holdings"@
}

/// The title of a realm's map.
pub fn realm_title(world_name: &str) -> (r: String)
    ensures
        r@ == realm_title_of(world_name@),
{
    joined(world_name, " · Code Realm")
}

proof fn lemma_realm_files_grow(repositories: Seq<Repository>, i: int)
    requires
        0 <= i <= repositories.len(),
    ensures
        realm_files_of(repositories.take(i)) <= realm_files_of(repositories),
        realm_files_of(repositories.take(i)) >= 0,
    decreases repositories.len() - i,
{
    if i < repositories.len() {
        lemma_realm_files_grow(repositories, i + 1);
        assert(repositories.take(i + 1).drop_last() =~= repositories.take(i));
    } else {
        assert(repositories.take(i) =~= repositories);
    }
    lemma_realm_files_nonneg(repositories.take(i));
}

proof fn lemma_realm_files_nonneg(repositories: Seq<Repository>)
    ensures
        realm_files_of(repositories) >= 0,
    decreases repositories.len(),
{
    if repositories.len() > 0 {
        lemma_realm_files_nonneg(repositories.drop_last());
    }
}

/// How many files a realm holds across all its repositories.
pub fn realm_files(repositories: &Vec<Repository>) -> (r: usize)
    requires
        realm_files_of(repositories@) <= usize::MAX,
    ensures
        r == realm_files_of(repositories@),
{
    let mut total: usize = 0;
    let mut i: usize = 0;
    while i < repositories.len()
        invariant
            i <= repositories.len(),
            realm_files_of(repositories@) <= usize::MAX,
            total == realm_files_of(repositories@.take(i as int)),
        decreases repositories.len() - i,
    {
        proof {
            lemma_realm_files_grow(repositories@, i + 1);
            assert(repositories@.take(i + 1).drop_last() =~= repositories@.take(i as int));
            lemma_realm_files_nonneg(repositories@.take(i as int));
        }
        total = total + repositories[i].root.metrics.file_count + repositories[i].omitted_files;
        i = i + 1;
    }
    assert(repositories@.take(repositories.len() as int) =~= repositories@);
    total
}

/// The line under a realm's title: how many towns, and how many holdings in
/// all of them.
pub fn realm_subtitle(repositories: &Vec<Repository>) -> (r: String)
    requires
        realm_files_of(repositories@) <= usize::MAX,
    ensures
        r@ == realm_subtitle_of(repositories.len() as nat, realm_files_of(repositories@) as nat),
{
    let towns = with_number("", repositories.len());
    let files = format_number(realm_files(repositories));
    let head = joined(towns.as_str(), " towns · ");
    let body = joined(head.as_str(), files.as_str());
    proof {
        reveal_strlit("");
        assert(""@ + decimal(repositories.len() as nat) =~= decimal(repositories.len() as nat));
    }
    joined(body.as_str(), " holdings")
}

/// Every one of `n` items kept.
pub open spec fn all_kept(n: int) -> Seq<bool> {
    Seq::new(n as nat, |i: int| true)
}

/// How many files each town's repository holds.
pub open spec fn town_files(towns: Seq<TownSummary>, repositories: Seq<Repository>) -> Seq<u64> {
    towns.map_values(|t: TownSummary| repository_files(repositories[t.repository_index as int]) as u64)
}

/// The towns of a realm, biggest first, as the places its map frames: each
/// is `town-` and its place in that order, named after the town, and
/// captioned with its repository's files and lines, in both lists.
pub fn town_captions(towns: &Vec<TownSummary>, repositories: &Vec<Repository>) -> (r: (Vec<Caption>, Vec<Caption>))
    requires
        forall|i: int| 0 <= i < towns.len() ==> (#[trigger] towns@[i]).repository_index < repositories.len(),
        forall|i: int| 0 <= i < repositories.len() ==> repository_files(#[trigger] repositories@[i]) <= usize::MAX,
    ensures
        r.0.len() == towns.len(),
        r.1.len() == towns.len(),
        forall|k: int|
            0 <= k < r.0.len() ==> {
                let t = towns@[heaviest_first_of(
                    town_files(towns@, repositories@),
                    all_kept(towns.len() as int),
                    towns.len() as int,
                )[k]];
                let repository = repositories@[t.repository_index as int];
                &&& (#[trigger] r.0@[k]).id@ == "town-"@ + decimal(k as nat)
                &&& r.0@[k].label@ == t.name@
                &&& r.0@[k].detail@ == files_and_lines(
                    repository_files(repository) as usize,
                    repository.root.metrics.lines,
                )
                &&& r.1@[k].id@ == r.0@[k].id@
                &&& r.1@[k].label@ == r.0@[k].label@
                &&& r.1@[k].detail@ == r.0@[k].detail@
            },
{
    let ghost all = all_kept(towns.len() as int);
    let mut weights: Vec<u64> = Vec::new();
    let mut keep: Vec<bool> = Vec::new();
    let mut i: usize = 0;
    while i < towns.len()
        invariant
            i <= towns.len(),
            forall|j: int| 0 <= j < towns.len() ==> (#[trigger] towns@[j]).repository_index < repositories.len(),
            forall|j: int| 0 <= j < repositories.len() ==> repository_files(#[trigger] repositories@[j]) <= usize::MAX,
            weights@ == town_files(towns@, repositories@).take(i as int),
            keep@ == all.take(i as int),
            all == all_kept(towns.len() as int),
        decreases towns.len() - i,
    {
        let r = &repositories[towns[i].repository_index];
        assert(repository_files(repositories@[towns@[i as int].repository_index as int]) <= usize::MAX);
        weights.push((r.root.metrics.file_count + r.omitted_files) as u64);
        keep.push(true);
        i = i + 1;
        assert(weights@ =~= town_files(towns@, repositories@).take(i as int));
        assert(keep@ =~= all.take(i as int));
    }
    assert(weights@ =~= town_files(towns@, repositories@));
    assert(keep@ =~= all);
    let order = heaviest_first(&weights, &keep);
    let ghost ord = heaviest_first_of(town_files(towns@, repositories@), all, towns.len() as int);
    proof {
        lemma_heaviest_first_bounds(town_files(towns@, repositories@), all, towns.len() as int);
        law_every_town_is_framed(town_files(towns@, repositories@), towns.len() as int);
    }
    let mut locations: Vec<Caption> = Vec::new();
    let mut districts: Vec<Caption> = Vec::new();
    let mut k: usize = 0;
    while k < order.len()
        invariant
            k <= order.len(),
            order@.map_values(|x: usize| x as int) == ord,
            ord == heaviest_first_of(town_files(towns@, repositories@), all, towns.len() as int),
            all == all_kept(towns.len() as int),
            ord.len() == towns.len(),
            forall|j: int| 0 <= j < ord.len() ==> 0 <= #[trigger] ord[j] < towns.len(),
            forall|j: int| 0 <= j < towns.len() ==> (#[trigger] towns@[j]).repository_index < repositories.len(),
            forall|j: int| 0 <= j < repositories.len() ==> repository_files(#[trigger] repositories@[j]) <= usize::MAX,
            locations.len() == k,
            districts.len() == k,
            forall|j: int|
                0 <= j < k ==> {
                    let t = towns@[ord[j]];
                    let repository = repositories@[t.repository_index as int];
                    &&& (#[trigger] locations@[j]).id@ == "town-"@ + decimal(j as nat)
                    &&& locations@[j].label@ == t.name@
                    &&& locations@[j].detail@ == files_and_lines(
                        repository_files(repository) as usize,
                        repository.root.metrics.lines,
                    )
                    &&& districts@[j].id@ == locations@[j].id@
                    &&& districts@[j].label@ == locations@[j].label@
                    &&& districts@[j].detail@ == locations@[j].detail@
                },
        decreases order.len() - k,
    {
        assert(ord[k as int] == order@[k as int] as int);
        let t = &towns[order[k]];
        let r = &repositories[t.repository_index];
        assert(repository_files(repositories@[t.repository_index as int]) <= usize::MAX);
        let count = format_number(r.root.metrics.file_count + r.omitted_files);
        let lines = format_number(r.root.metrics.lines);
        let head = joined(count.as_str(), " files · ");
        let body = joined(head.as_str(), lines.as_str());
        let detail = joined(body.as_str(), " lines");
        let id = with_number("town-", k);
        let label = string_of(&chars_of(t.name.as_str()));
        districts.push(Caption {
            id: string_of(&chars_of(id.as_str())),
            label: string_of(&chars_of(label.as_str())),
            detail: string_of(&chars_of(detail.as_str())),
        });
        locations.push(Caption { id, label, detail });
        k = k + 1;
    }
    (locations, districts)
}

/// Every town of a realm is framed once: with nothing left out, the order
/// holds each position once.
pub proof fn law_every_town_is_framed(weights: Seq<u64>, n: int)
    requires
        0 <= n,
    ensures
        heaviest_first_of(weights, all_kept(n), n).len() == n,
        forall|x: int| 0 <= x < n ==> #[trigger] heaviest_first_of(weights, all_kept(n), n).contains(x),
{
    lemma_everything_kept(weights, all_kept(n), n);
}

proof fn lemma_everything_kept(weights: Seq<u64>, keep: Seq<bool>, n: int)
    requires
        0 <= n <= keep.len(),
        forall|i: int| 0 <= i < n ==> #[trigger] keep[i],
    ensures
        heaviest_first_of(weights, keep, n).len() == n,
        forall|x: int| 0 <= x < n ==> #[trigger] heaviest_first_of(weights, keep, n).contains(x),
    decreases n,
{
    if n > 0 {
        lemma_everything_kept(weights, keep, n - 1);
        let t = heaviest_first_of(weights, keep, n - 1);
        let p = weight_position(weights, t, n - 1);
        lemma_weight_position_bounds(weights, t, n - 1);
        let u = t.insert(p, n - 1);
        assert(u == heaviest_first_of(weights, keep, n));
        assert forall|x: int| 0 <= x < n implies #[trigger] u.contains(x) by {
            if x == n - 1 {
                assert(u[p] == x);
            } else {
                assert(t.contains(x));
                let k = choose|k: int| 0 <= k < t.len() && t[k] == x;
                if k < p {
                    assert(u[k] == x);
                } else {
                    assert(u[k + 1] == x);
                }
            }
        }
    }
}

} // verus!
