//! The text the manifest shows about a holding: the folder it sits in, the
//! trail of folders leading to it, its category's name, and counts written
//! with thousands separators.

use vstd::prelude::*;
use crate::layout::decimal_exec;
use crate::model::Category;
use crate::text::{chars_of, decimal, has_char, slice_chars, split, split_exec, string_of, Sep};

verus! {

/// One step of the trail of folders leading to a file.
#[derive(Debug)]
pub struct MapCrumb {
    /// The ward that folder became, where it became one.
    pub ward_id: Option<String>,
    /// The folder's name.
    pub name: String,
}

/// The position of the last `/` in `s`, or `-1`.
pub open spec fn last_slash(s: Seq<char>) -> int
    decreases s.len(),
{
    if s.len() == 0 {
        -1
    } else if s.last() == '/' {
        s.len() - 1
    } else {
        last_slash(s.drop_last())
    }
}

/// The folder holding a file: everything before its last `/`, or nothing.
pub open spec fn folder_of_path(path: Seq<char>) -> Seq<char> {
    if last_slash(path) >= 0 {
        path.take(last_slash(path))
    } else {
        Seq::<char>::empty()
    }
}

proof fn lemma_last_slash(s: Seq<char>)
    ensures
        -1 <= last_slash(s) < s.len(),
    decreases s.len(),
{
    if s.len() > 0 && s.last() != '/' {
        lemma_last_slash(s.drop_last());
    }
}

/// The folder holding a file, relative to the repository root.
pub fn folder_of(path: &str) -> (r: String)
    ensures
        r@ == folder_of_path(path@),
{
    let p = chars_of(path);
    proof {
        lemma_last_slash(p@);
    }
    let mut n = p.len();
    assert(p@.take(n as int) =~= p@);
    while n > 0
        invariant
            n <= p.len(),
            p@ == path@,
            last_slash(p@) == last_slash(p@.take(n as int)),
        decreases n,
    {
        if p[n - 1] == '/' {
            assert(p@.take(n as int).last() == p@[n - 1]);
            assert(last_slash(p@) == n - 1);
            assert(p@.take(n - 1) =~= p@.subrange(0, n - 1));
            assert(folder_of_path(path@) == p@.subrange(0, n - 1));
            let folder = slice_chars(&p, 0, n - 1);
            return string_of(&folder);
        }
        assert(p@.take(n as int).drop_last() =~= p@.take(n - 1));
        n = n - 1;
    }
    String::new()
}

/// The ward the last of `wards` recorded for `path` stands for, if any:
/// later entries for the same path replace earlier ones.
pub open spec fn ward_for(wards: Seq<(Seq<char>, Seq<char>)>, path: Seq<char>) -> Option<Seq<char>>
    decreases wards.len(),
{
    if wards.len() == 0 {
        None
    } else if wards.last().0 == path {
        Some(wards.last().1)
    } else {
        ward_for(wards.drop_last(), path)
    }
}

/// The characters of each recorded (folder path, ward id) pair.
pub open spec fn pairs_view(wards: Seq<(String, String)>) -> Seq<(Seq<char>, Seq<char>)> {
    wards.map_values(|w: (String, String)| (w.0@, w.1@))
}

/// The running prefix after the first `k` folder names: each name appended,
/// with a `/` before it once the prefix is not empty.
pub open spec fn prefix_after(segments: Seq<Seq<char>>, k: int) -> Seq<char>
    decreases k,
{
    if k <= 0 {
        Seq::<char>::empty()
    } else {
        let before = prefix_after(segments, k - 1);
        (if before.len() > 0 {
            before + seq!['/']
        } else {
            before
        }) + segments[k - 1]
    }
}

/// The trail of folders leading to a file in `folder`, outermost first:
/// every `/`-separated name, with the ward the path up to and including it
/// stands for. Nothing for a file at the root.
pub open spec fn trail_of(folder: Seq<char>, wards: Seq<(Seq<char>, Seq<char>)>) -> Seq<
    (Option<Seq<char>>, Seq<char>),
> {
    if folder.len() == 0 {
        Seq::empty()
    } else {
        let segments = split(folder, Sep::Slash);
        Seq::new(
            segments.len(),
            |k: int| (ward_for(wards, prefix_after(segments, k + 1)), segments[k]),
        )
    }
}

pub open spec fn crumb_view(c: MapCrumb) -> (Option<Seq<char>>, Seq<char>) {
    (
        match c.ward_id {
            Some(w) => Some(w@),
            None => None,
        },
        c.name@,
    )
}

fn ward_lookup(wards: &Vec<(String, String)>, path: &Vec<char>) -> (r: Option<String>)
    ensures
        match r {
            Some(w) => ward_for(pairs_view(wards@), path@) == Some(w@),
            None => ward_for(pairs_view(wards@), path@) is None,
        },
{
    let ghost pv = pairs_view(wards@);
    let mut n = wards.len();
    assert(pv.take(n as int) =~= pv);
    while n > 0
        invariant
            n <= wards.len(),
            pv == pairs_view(wards@),
            ward_for(pv, path@) == ward_for(pv.take(n as int), path@),
        decreases n,
    {
        let entry = &wards[n - 1];
        let key = chars_of(entry.0.as_str());
        assert(pv.take(n as int).last() == (entry.0@, entry.1@));
        if crate::text::eq_chars(&key, path) {
            return Some(entry.1.clone());
        }
        assert(pv.take(n as int).drop_last() =~= pv.take(n - 1));
        n = n - 1;
    }
    None
}

/// The trail of folders leading to a file, outermost first, each named and
/// linked to the ward it became where `wards` (folder path, ward id) records
/// one.
pub fn breadcrumb(folder: &str, wards: &Vec<(String, String)>) -> (r: Vec<MapCrumb>)
    ensures
        r@.map_values(|c: MapCrumb| crumb_view(c)) == trail_of(folder@, pairs_view(wards@)),
{
    let f = chars_of(folder);
    let mut trail: Vec<MapCrumb> = Vec::new();
    if f.len() == 0 {
        assert(trail@.map_values(|c: MapCrumb| crumb_view(c)) =~= trail_of(folder@, pairs_view(wards@)));
        return trail;
    }
    let segments = split_exec(&f, Sep::Slash);
    let ghost sv = crate::imports::cv(segments@);
    let ghost target = trail_of(folder@, pairs_view(wards@));
    let mut prefix: Vec<char> = Vec::new();
    let mut k: usize = 0;
    while k < segments.len()
        invariant
            k <= segments.len(),
            sv == crate::imports::cv(segments@),
            sv == split(f@, Sep::Slash),
            f@ == folder@,
            f@.len() > 0,
            target == trail_of(folder@, pairs_view(wards@)),
            prefix@ == prefix_after(sv, k as int),
            trail@.len() == k,
            forall|j: int| 0 <= j < k ==> #[trigger] crumb_view(trail@[j]) == target[j],
        decreases segments.len() - k,
    {
        let seg = &segments[k];
        if prefix.len() > 0 {
            prefix.push('/');
        }
        let ghost mid = prefix@;
        let mut i: usize = 0;
        while i < seg.len()
            invariant
                i <= seg.len(),
                prefix@ == mid + seg@.take(i as int),
            decreases seg.len() - i,
        {
            prefix.push(seg[i]);
            i = i + 1;
            assert(mid + seg@.take(i as int) =~= (mid + seg@.take((i - 1) as int)).push(seg@[i - 1]));
        }
        assert(seg@.take(seg.len() as int) =~= seg@);
        assert(prefix@ == prefix_after(sv, k + 1));
        let ward_id = ward_lookup(wards, &prefix);
        trail.push(MapCrumb { ward_id, name: string_of(seg) });
        k = k + 1;
    }
    assert(trail@.map_values(|c: MapCrumb| crumb_view(c)) =~= target);
    trail
}

/// The name the interface gives a category.
pub open spec fn category_name(category: Category) -> Seq<char> {
    match category {
        Category::Source => "Source"@,
        Category::Web => "Web / UI"@,
        Category::Test => "Test"@,
        Category::Docs => "Documentation"@,
        Category::Config => "Configuration"@,
        Category::Data => "Data"@,
        Category::Asset => "Asset"@,
        Category::Script => "Script / Tooling"@,
        Category::Other => "Other"@,
    }
}

/// The name the interface gives a category.
pub fn category_label(category: Category) -> (r: &'static str)
    ensures
        r@ == category_name(category),
{
    match category {
        Category::Source => "Source",
        Category::Web => "Web / UI",
        Category::Test => "Test",
        Category::Docs => "Documentation",
        Category::Config => "Configuration",
        Category::Data => "Data",
        Category::Asset => "Asset",
        Category::Script => "Script / Tooling",
        Category::Other => "Other",
    }
}

/// The first `k` digits of `digits` with a `,` before every digit that
/// starts a group of three counted from the right.
pub open spec fn grouped(digits: Seq<char>, k: int) -> Seq<char>
    decreases k,
{
    if k <= 0 {
        Seq::<char>::empty()
    } else {
        let before = grouped(digits, k - 1);
        let index = k - 1;
        (if index > 0 && (digits.len() - index) % 3 == 0 {
            before + seq![',']
        } else {
            before
        }) + seq![digits[index]]
    }
}

/// `n` in decimal with a `,` between every group of three digits.
pub open spec fn with_separators(n: nat) -> Seq<char> {
    grouped(decimal(n), decimal(n).len() as int)
}

/// A count written in decimal with thousands separators.
pub fn format_number(value: usize) -> (r: String)
    ensures
        r@ == with_separators(value as nat),
{
    let digits = decimal_exec(value);
    let mut output: Vec<char> = Vec::new();
    let mut index: usize = 0;
    while index < digits.len()
        invariant
            index <= digits.len(),
            output@ == grouped(digits@, index as int),
        decreases digits.len() - index,
    {
        if index > 0 && (digits.len() - index) % 3 == 0 {
            output.push(',');
        }
        output.push(digits[index]);
        index = index + 1;
        assert(output@ =~= grouped(digits@, index as int));
    }
    string_of(&output)
}


// ---------------------------------------------------------------------------
// Laws
// ---------------------------------------------------------------------------

/// `s` with every `,` left out.
pub open spec fn without_separators(s: Seq<char>) -> Seq<char>
    decreases s.len(),
{
    if s.len() == 0 {
        Seq::<char>::empty()
    } else if s.last() == ',' {
        without_separators(s.drop_last())
    } else {
        without_separators(s.drop_last()).push(s.last())
    }
}

proof fn lemma_decimal_digits(n: nat)
    ensures
        forall|i: int| 0 <= i < decimal(n).len() ==> '0' <= #[trigger] decimal(n)[i] <= '9',
    decreases n,
{
    if n >= 10 {
        lemma_decimal_digits(n / 10);
        assert forall|i: int| 0 <= i < decimal(n).len() implies '0' <= #[trigger] decimal(n)[i] <= '9' by {
            if i < decimal(n / 10).len() {
                assert(decimal(n)[i] == decimal(n / 10)[i]);
            }
        }
    }
}

proof fn lemma_grouped_digits(digits: Seq<char>, k: int)
    requires
        0 <= k <= digits.len(),
        forall|i: int| 0 <= i < digits.len() ==> #[trigger] digits[i] != ',',
    ensures
        without_separators(grouped(digits, k)) == digits.take(k),
    decreases k,
{
    if k > 0 {
        lemma_grouped_digits(digits, k - 1);
        let before = grouped(digits, k - 1);
        let index = k - 1;
        let d = digits[index];
        assert(d != ',');
        if index > 0 && (digits.len() - index) % 3 == 0 {
            let marked = before + seq![','];
            assert(grouped(digits, k) == marked + seq![d]);
            assert((marked + seq![d]).drop_last() =~= marked);
            assert((marked + seq![d]).last() == d);
            assert(marked.drop_last() =~= before);
            assert(marked.last() == ',');
            assert(without_separators(marked) == without_separators(before));
            assert(without_separators(grouped(digits, k)) == without_separators(before).push(d));
        } else {
            assert(grouped(digits, k) == before + seq![d]);
            assert((before + seq![d]).drop_last() =~= before);
            assert((before + seq![d]).last() == d);
            assert(without_separators(grouped(digits, k)) == without_separators(before).push(d));
        }
        assert(digits.take(k) =~= digits.take(k - 1).push(d));
    }
}

/// Thousands separators only group the digits: leaving out every `,` gives
/// back the number in plain decimal.
pub proof fn law_separators_only_group_the_digits(n: nat)
    ensures
        without_separators(with_separators(n)) == decimal(n),
{
    lemma_decimal_digits(n);
    lemma_grouped_digits(decimal(n), decimal(n).len() as int);
    assert(decimal(n).take(decimal(n).len() as int) =~= decimal(n));
}

} // verus!
