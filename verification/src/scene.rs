//! Identifiers that tie a holding to its manifest entry, and the colours a
//! holding is painted in.

use vstd::prelude::*;
use crate::layout::{decimal_exec, with_number};
use crate::model::Category;
use crate::text::{chars_of, decimal, string_of};

verus! {

/// A colour as red, green, blue and alpha.
pub type MapColor = [u8; 4];

/// The colours one holding is painted in.
#[derive(Clone, Copy, Debug)]
pub struct MapPalette {
    pub wall: MapColor,
    pub roof: MapColor,
    pub trim: MapColor,
    pub window: MapColor,
    pub ground: MapColor,
}

/// Identifier linking a single repository's holding to its manifest feature.
pub fn city_feature_id(building_index: usize) -> (r: String)
    ensures
        r@ == "file-"@ + decimal(building_index as nat),
{
    with_number("file-", building_index)
}

/// Identifier linking a realm holding to its manifest feature.
pub fn realm_feature_id(repository_index: usize, building_index: usize) -> (r: String)
    ensures
        r@ == decimal(repository_index as nat) + seq!['-'] + decimal(building_index as nat),
{
    let mut all = decimal_exec(repository_index);
    all.push('-');
    let rest = decimal_exec(building_index);
    let ghost start = all@;
    let mut i: usize = 0;
    while i < rest.len()
        invariant
            i <= rest.len(),
            all@ == start + rest@.take(i as int),
        decreases rest.len() - i,
    {
        all.push(rest[i]);
        i = i + 1;
        assert(start + rest@.take(i as int) =~= (start + rest@.take((i - 1) as int)).push(
            rest@[i - 1],
        ));
    }
    assert(rest@.take(rest.len() as int) =~= rest@);
    string_of(&all)
}

/// The roof and wall colours (red, green, blue) that carry a file's role.
pub open spec fn role_colors(category: Category) -> ((u8, u8, u8), (u8, u8, u8)) {
    match category {
        Category::Source => ((91, 121, 91), (151, 134, 102)),
        Category::Web => ((89, 113, 139), (145, 126, 101)),
        Category::Test => ((151, 76, 59), (141, 122, 92)),
        Category::Docs => ((178, 137, 63), (158, 140, 105)),
        Category::Config => ((117, 87, 126), (135, 124, 109)),
        Category::Data => ((99, 128, 74), (146, 128, 89)),
        Category::Asset => ((143, 105, 93), (102, 120, 72)),
        Category::Script => ((165, 101, 50), (146, 125, 96)),
        Category::Other => ((111, 112, 104), (137, 129, 110)),
    }
}

/// `x - y`, or zero where that would go below zero.
pub open spec fn less(x: u8, y: u8) -> u8 {
    if x >= y {
        (x - y) as u8
    } else {
        0
    }
}

/// Wall and roof colours carrying the file's role, a shared trim and window
/// colour, and ground a shade darker than the wall; every colour opaque.
pub fn palette(category: Category) -> (p: MapPalette)
    ensures
        p.roof@ == seq![role_colors(category).0.0, role_colors(category).0.1, role_colors(category).0.2, 255u8],
        p.wall@ == seq![role_colors(category).1.0, role_colors(category).1.1, role_colors(category).1.2, 255u8],
        p.trim@ == seq![79u8, 66u8, 51u8, 255u8],
        p.window@ == seq![239u8, 190u8, 88u8, 255u8],
        p.ground@ == seq![
            less(role_colors(category).1.0, 20),
            less(role_colors(category).1.1, 17),
            less(role_colors(category).1.2, 10),
            255u8,
        ],
{
    let (roof, wall): ((u8, u8, u8), (u8, u8, u8)) = match category {
        Category::Source => ((91, 121, 91), (151, 134, 102)),
        Category::Web => ((89, 113, 139), (145, 126, 101)),
        Category::Test => ((151, 76, 59), (141, 122, 92)),
        Category::Docs => ((178, 137, 63), (158, 140, 105)),
        Category::Config => ((117, 87, 126), (135, 124, 109)),
        Category::Data => ((99, 128, 74), (146, 128, 89)),
        Category::Asset => ((143, 105, 93), (102, 120, 72)),
        Category::Script => ((165, 101, 50), (146, 125, 96)),
        Category::Other => ((111, 112, 104), (137, 129, 110)),
    };
    let p = MapPalette {
        wall: [wall.0, wall.1, wall.2, 255],
        roof: [roof.0, roof.1, roof.2, 255],
        trim: [79, 66, 51, 255],
        window: [239, 190, 88, 255],
        ground: [wall.0.saturating_sub(20), wall.1.saturating_sub(17), wall.2.saturating_sub(10), 255],
    };
    assert(p.roof@ =~= seq![roof.0, roof.1, roof.2, 255u8]);
    assert(p.wall@ =~= seq![wall.0, wall.1, wall.2, 255u8]);
    assert(p.trim@ =~= seq![79u8, 66u8, 51u8, 255u8]);
    assert(p.window@ =~= seq![239u8, 190u8, 88u8, 255u8]);
    assert(p.ground@ =~= seq![less(wall.0, 20), less(wall.1, 17), less(wall.2, 10), 255u8]);
    p
}


/// The seed key of a settlement: `repo-city`, then `/` and the path of each
/// top-level district, in order.
pub open spec fn settlement_key_of(districts: Seq<(usize, Seq<char>)>) -> Seq<char>
    decreases districts.len(),
{
    if districts.len() == 0 {
        "repo-city"@
    } else {
        let key = settlement_key_of(districts.drop_last());
        if districts.last().0 == 0 {
            key + seq!['/'] + districts.last().1
        } else {
            key
        }
    }
}

/// A key for everything that must vary between repositories but never
/// between two builds of the same one, from each district's depth and path.
pub fn settlement_key(districts: &Vec<(usize, String)>) -> (r: String)
    ensures
        r@ == settlement_key_of(districts@.map_values(|d: (usize, String)| (d.0, d.1@))),
{
    let ghost view = districts@.map_values(|d: (usize, String)| (d.0, d.1@));
    let mut key: Vec<char> = chars_of("repo-city");
    proof {
        reveal_strlit("repo-city");
        assert(view.take(0) =~= Seq::<(usize, Seq<char>)>::empty());
    }
    let mut i: usize = 0;
    while i < districts.len()
        invariant
            i <= districts.len(),
            view == districts@.map_values(|d: (usize, String)| (d.0, d.1@)),
            key@ == settlement_key_of(view.take(i as int)),
        decreases districts.len() - i,
    {
        assert(view.take(i + 1).drop_last() =~= view.take(i as int));
        let (depth, path) = (districts[i].0, &districts[i].1);
        if depth == 0 {
            key.push('/');
            let tail = chars_of(path.as_str());
            let ghost before = key@;
            let mut j: usize = 0;
            while j < tail.len()
                invariant
                    j <= tail.len(),
                    key@ == before + tail@.take(j as int),
                decreases tail.len() - j,
            {
                key.push(tail[j]);
                j = j + 1;
                assert(before + tail@.take(j as int) =~= (before + tail@.take((j - 1) as int)).push(tail@[j - 1]));
            }
            assert(tail@.take(tail.len() as int) =~= tail@);
        }
        i = i + 1;
    }
    assert(view.take(districts.len() as int) =~= view);
    string_of(&key)
}

} // verus!
