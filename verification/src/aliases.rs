//! Every name an import could call a file by.
//!
//! A file answers to each trailing run of its own path, written lowercase
//! with `_` as `-` and without its extension; a barrel file (`mod`, `index`,
//! `lib`, ...) answers for its folder instead of by its own name; and where
//! the path holds packaging folders a caller never writes (`src`, `crates`,
//! ...) it also answers to the same runs with those left out.

use vstd::prelude::*;
use crate::imports::cv;
use crate::paths::{names, names_exec, stem, stem_exec};
use crate::text::{
    chars_lt, dashed, dashed_exec, eq_chars, eq_str, join, lemma_chars_lt_irreflexive,
    lemma_chars_lt_total, lemma_chars_lt_transitive, lower, lower_exec, string_of,
};

verus! {

/// A file stem that stands for the folder it sits in.
pub open spec fn is_barrel(s: Seq<char>) -> bool {
    s == "mod"@ || s == "index"@ || s == "__init__"@ || s == "lib"@ || s == "main"@
}

/// A folder name that is packaging rather than part of an import path.
pub open spec fn is_plumbing(s: Seq<char>) -> bool {
    s == "src"@ || s == "lib"@ || s == "source"@ || s == "app"@ || s == "pkg"@ || s == "internal"@
        || s == "crates"@
}

/// The segments a file is named by: its folders lowercased with `_` as `-`,
/// then its own stem written the same way unless it is a barrel.
pub open spec fn alias_segments(file: Seq<char>) -> Seq<Seq<char>> {
    let ns = names(file).map_values(|n: Seq<char>| lower(n));
    if ns.len() == 0 {
        Seq::<Seq<char>>::empty()
    } else {
        let folders = ns.drop_last().map_values(|n: Seq<char>| dashed(n));
        let own = dashed(stem(ns.last()));
        if is_barrel(own) {
            folders
        } else {
            folders.push(own)
        }
    }
}

/// Every trailing run of `form`, each joined with `/`, longest first.
pub open spec fn suffixes(form: Seq<Seq<char>>) -> Seq<Seq<char>> {
    Seq::new(form.len(), |start: int| join(form.skip(start), "/"@))
}

/// Every name a file answers to, as written before sorting: the trailing runs
/// of its segments, then those of its segments without packaging.
pub open spec fn alias_candidates(file: Seq<char>) -> Seq<Seq<char>> {
    let segs = alias_segments(file);
    suffixes(segs) + suffixes(segs.filter(|s: Seq<char>| !is_plumbing(s)))
}

/// Whether a sequence of names is in strictly increasing order.
pub open spec fn strictly_sorted(s: Seq<Seq<char>>) -> bool {
    forall|i: int, j: int| 0 <= i < j < s.len() ==> chars_lt(s[i], s[j])
}

fn is_barrel_exec(s: &[char]) -> (r: bool)
    ensures
        r == is_barrel(s@),
{
    eq_str(s, "mod") || eq_str(s, "index") || eq_str(s, "__init__") || eq_str(s, "lib") || eq_str(
        s,
        "main",
    )
}

fn is_plumbing_exec(s: &[char]) -> (r: bool)
    ensures
        r == is_plumbing(s@),
{
    eq_str(s, "src") || eq_str(s, "lib") || eq_str(s, "source") || eq_str(s, "app") || eq_str(
        s,
        "pkg",
    ) || eq_str(s, "internal") || eq_str(s, "crates")
}

/// Whether `a` comes before `b`.
pub fn chars_lt_exec(a: &[char], b: &[char]) -> (r: bool)
    ensures
        r == chars_lt(a@, b@),
{
    let mut i: usize = 0;
    assert(a@.skip(0) =~= a@);
    assert(b@.skip(0) =~= b@);
    while i < a.len() && i < b.len() && a[i] == b[i]
        invariant
            i <= a.len(),
            i <= b.len(),
            chars_lt(a@, b@) == chars_lt(a@.skip(i as int), b@.skip(i as int)),
        decreases a.len() - i,
    {
        assert(a@.skip(i as int).drop_first() =~= a@.skip(i + 1));
        assert(b@.skip(i as int).drop_first() =~= b@.skip(i + 1));
        i = i + 1;
    }
    if i == b.len() {
        false
    } else if i == a.len() {
        true
    } else {
        assert(a@.skip(i as int)[0] == a@[i as int]);
        assert(b@.skip(i as int)[0] == b@[i as int]);
        a[i] < b[i]
    }
}

/// `form[start..]` joined with `/`.
pub fn join_from(form: &Vec<Vec<char>>, start: usize) -> (r: Vec<char>)
    requires
        start < form.len(),
    ensures
        r@ == join(cv(form@).skip(start as int), "/"@),
{
    let ghost all = cv(form@);
    let mut r = crate::text::slice_chars(&form[start], 0, form[start].len());
    assert(form@[start as int]@.subrange(0, form@[start as int]@.len() as int) =~= form@[start as int]@);
    let mut j = start + 1;
    proof {
        reveal_strlit("/");
        assert(all.subrange(start as int, j as int) =~= seq![all[start as int]]);
    }
    while j < form.len()
        invariant
            start < j <= form.len(),
            all == cv(form@),
            r@ == join(all.subrange(start as int, j as int), "/"@),
        decreases form.len() - j,
    {
        let ghost before = r@;
        r.push('/');
        let piece = &form[j];
        let mut k: usize = 0;
        while k < piece.len()
            invariant
                k <= piece.len(),
                r@ == before + seq!['/'] + piece@.take(k as int),
            decreases piece.len() - k,
        {
            r.push(piece[k]);
            k = k + 1;
            assert(before + seq!['/'] + piece@.take(k as int) =~= (before + seq!['/']
                + piece@.take((k - 1) as int)).push(piece@[k - 1]));
        }
        proof {
            reveal_strlit("/");
            let xs = all.subrange(start as int, j + 1);
            assert(xs.drop_last() =~= all.subrange(start as int, j as int));
            assert(piece@.take(piece.len() as int) =~= piece@);
            assert("/"@ =~= seq!['/']);
        }
        j = j + 1;
    }
    assert(all.subrange(start as int, form.len() as int) =~= all.skip(start as int));
    r
}

/// Inserts `x` into a strictly sorted list unless it is already there.
fn insert_sorted(list: &mut Vec<Vec<char>>, x: Vec<char>)
    requires
        strictly_sorted(cv(old(list)@)),
    ensures
        strictly_sorted(cv(final(list)@)),
        cv(final(list)@).to_set() == cv(old(list)@).to_set().insert(x@),
{
    let ghost old_v = cv(list@);
    let mut p: usize = 0;
    while p < list.len() && chars_lt_exec(&list[p], &x)
        invariant
            p <= list.len(),
            cv(list@) == old_v,
            forall|i: int| 0 <= i < p ==> chars_lt(old_v[i], x@),
        decreases list.len() - p,
    {
        p = p + 1;
    }
    if p < list.len() && eq_chars(&list[p], &x) {
        assert(old_v.to_set().insert(x@) =~= old_v.to_set()) by {
            assert(old_v[p as int] == x@);
        }
        return;
    }
    proof {
        if p < list.len() {
            lemma_chars_lt_total(old_v[p as int], x@);
            assert(chars_lt(x@, old_v[p as int]));
        }
    }
    list.insert(p, x);
    let ghost new_v = cv(list@);
    assert(new_v =~= old_v.insert(p as int, x@));
    assert forall|i: int, j: int| 0 <= i < j < new_v.len() implies chars_lt(new_v[i], new_v[j]) by {
        if j < p {
        } else if j == p {
        } else if i < p {
            if j > p + 1 {
                assert(chars_lt(old_v[p as int], old_v[j - 1]));
                lemma_chars_lt_transitive(x@, old_v[p as int], old_v[j - 1]);
            }
            assert(chars_lt(x@, new_v[j]));
            lemma_chars_lt_transitive(new_v[i], x@, new_v[j]);
        } else if i == p {
            if j > p + 1 {
                assert(chars_lt(old_v[p as int], old_v[j - 1]));
                lemma_chars_lt_transitive(x@, old_v[p as int], old_v[j - 1]);
            }
        } else {
            assert(new_v[i] == old_v[i - 1]);
            assert(new_v[j] == old_v[j - 1]);
        }
    }
    assert(new_v.to_set() =~= old_v.to_set().insert(x@)) by {
        assert forall|y: Seq<char>| new_v.to_set().contains(y) implies old_v.to_set().insert(
            x@,
        ).contains(y) by {
            let k = choose|k: int| 0 <= k < new_v.len() && new_v[k] == y;
            if k < p {
                assert(old_v[k] == y);
            } else if k > p {
                assert(old_v[k - 1] == y);
            }
        }
        assert forall|y: Seq<char>| old_v.to_set().insert(x@).contains(y) implies new_v.to_set().contains(
            y,
        ) by {
            if y == x@ {
                assert(new_v[p as int] == y);
            } else {
                let k = choose|k: int| 0 <= k < old_v.len() && old_v[k] == y;
                if k < p {
                    assert(new_v[k] == y);
                } else {
                    assert(new_v[k + 1] == y);
                }
            }
        }
    }
}

fn alias_segments_exec(file: &[char]) -> (r: Vec<Vec<char>>)
    ensures
        cv(r@) == alias_segments(file@),
{
    let raw = names_exec(file);
    let ghost lowered = names(file@).map_values(|n: Seq<char>| lower(n));
    let mut r: Vec<Vec<char>> = Vec::new();
    if raw.len() == 0 {
        assert(cv(r@) =~= Seq::<Seq<char>>::empty());
        return r;
    }
    let mut i: usize = 0;
    while i + 1 < raw.len()
        invariant
            i + 1 <= raw.len(),
            cv(raw@) == names(file@),
            lowered == names(file@).map_values(|n: Seq<char>| lower(n)),
            r@.len() == i,
            forall|j: int| 0 <= j < i ==> #[trigger] r@[j]@ == dashed(lowered[j]),
        decreases raw.len() - i,
    {
        r.push(dashed_exec(&lower_exec(&raw[i])));
        i = i + 1;
    }
    let ghost folders = lowered.drop_last().map_values(|n: Seq<char>| dashed(n));
    assert(cv(r@) =~= folders);
    let own = dashed_exec(&stem_exec(&lower_exec(&raw[raw.len() - 1])));
    assert(lowered.last() == lower(cv(raw@).last()));
    if !is_barrel_exec(&own) {
        r.push(own);
        assert(cv(r@) =~= folders.push(own@));
    }
    r
}

/// Every path an import could name this file by, sorted and without repeats.
pub fn aliases(file: &str) -> (r: Vec<String>)
    ensures
        strictly_sorted(crate::imports::sv(r@)),
        crate::imports::sv(r@).to_set() == alias_candidates(file@).to_set(),
{
    let f = crate::text::chars_of(file);
    let names = aliases_chars(&f);
    let r = crate::imports::strings_of(&names);
    r
}

/// The same, over the path's characters.
pub fn aliases_chars(file: &[char]) -> (r: Vec<Vec<char>>)
    ensures
        strictly_sorted(cv(r@)),
        cv(r@).to_set() == alias_candidates(file@).to_set(),
{
    let segs = alias_segments_exec(file);
    let mut trimmed: Vec<Vec<char>> = Vec::new();
    let ghost sv_ = cv(segs@);
    let mut i: usize = 0;
    while i < segs.len()
        invariant
            i <= segs.len(),
            sv_ == cv(segs@),
            cv(trimmed@) == sv_.take(i as int).filter(|s: Seq<char>| !is_plumbing(s)),
        decreases segs.len() - i,
    {
        assert(sv_.take(i + 1).drop_last() =~= sv_.take(i as int));
        reveal(Seq::filter);
        let ghost before = cv(trimmed@);
        if !is_plumbing_exec(&segs[i]) {
            trimmed.push(crate::text::slice_chars(&segs[i], 0, segs[i].len()));
            assert(segs@[i as int]@.subrange(0, segs@[i as int]@.len() as int) =~= segs@[i as int]@);
            assert(cv(trimmed@) =~= before.push(sv_[i as int]));
        } else {
            assert(cv(trimmed@) =~= before);
        }
        i = i + 1;
    }
    assert(sv_.take(segs.len() as int) =~= sv_);
    let ghost cands = alias_candidates(file@);
    let ghost first = suffixes(sv_);
    let ghost second = suffixes(cv(trimmed@));
    assert(cands == first + second);
    let mut r: Vec<Vec<char>> = Vec::new();
    assert(cv(r@).to_set() =~= cands.take(0).to_set());
    let mut s: usize = 0;
    while s < segs.len()
        invariant
            s <= segs.len(),
            sv_ == cv(segs@),
            cands == first + second,
            first == suffixes(sv_),
            strictly_sorted(cv(r@)),
            cv(r@).to_set() == cands.take(s as int).to_set(),
        decreases segs.len() - s,
    {
        let name = join_from(&segs, s);
        assert(name@ == first[s as int]);
        insert_sorted(&mut r, name);
        assert(cands.take(s + 1) =~= cands.take(s as int).push(first[s as int]));
        proof {
            cands.take(s as int).lemma_push_to_set_commute(first[s as int]);
        }
        s = s + 1;
    }
    let mut t: usize = 0;
    while t < trimmed.len()
        invariant
            t <= trimmed.len(),
            cands == first + second,
            first.len() == segs.len(),
            second == suffixes(cv(trimmed@)),
            strictly_sorted(cv(r@)),
            cv(r@).to_set() == cands.take(first.len() + t).to_set(),
        decreases trimmed.len() - t,
    {
        let name = join_from(&trimmed, t);
        assert(name@ == second[t as int]);
        insert_sorted(&mut r, name);
        assert(cands.take(first.len() + t + 1) =~= cands.take(first.len() + t).push(second[t as int]));
        proof {
            cands.take(first.len() + t).lemma_push_to_set_commute(second[t as int]);
        }
        t = t + 1;
    }
    assert(cands.take(first.len() + trimmed.len()) =~= cands);
    r
}

/// A barrel file answers for its folder: a file whose stem, lowercased
/// with `_` as `-`, is `mod`, `index`, `lib` or `main`, below at least one
/// folder, answers to its folders' path, each folder lowercased with `_` as
/// `-` and the names joined with `/`; and it never answers to its own
/// stem as the last name of a path of its folders.
pub proof fn law_a_barrel_answers_for_its_folder(file: Seq<char>)
    requires
        names(file).len() >= 2,
        ({
            let s = dashed(stem(lower(names(file).last())));
            s == "mod"@ || s == "index"@ || s == "lib"@ || s == "main"@
        }),
    ensures
        alias_candidates(file).contains(join(names(file).drop_last().map_values(|n: Seq<char>| dashed(lower(n))), "/"@)),
        alias_segments(file) == names(file).drop_last().map_values(|n: Seq<char>| dashed(lower(n))),
{
    let ns = names(file).map_values(|n: Seq<char>| lower(n));
    let folders = names(file).drop_last().map_values(|n: Seq<char>| dashed(lower(n)));
    assert(ns.drop_last().map_values(|n: Seq<char>| dashed(n)) =~= folders);
    assert(ns.last() == lower(names(file).last()));
    assert(alias_segments(file) == folders);
    let segs = alias_segments(file);
    assert(segs.skip(0) =~= segs);
    assert(suffixes(segs)[0] == join(folders, "/"@));
    assert(alias_candidates(file)[0] == suffixes(segs)[0]);
}

/// Any other file answers to its own stem, lowercased with `_` as `-`, and
/// to its whole path written that way without the extension.
pub proof fn law_a_file_answers_to_its_stem(file: Seq<char>)
    requires
        names(file).len() >= 1,
        ({
            let s = dashed(stem(lower(names(file).last())));
            s != "mod"@ && s != "index"@ && s != "lib"@ && s != "main"@ && s != "__init__"@
        }),
    ensures
        alias_candidates(file).contains(dashed(stem(lower(names(file).last())))),
        alias_candidates(file).contains(join(
            names(file).drop_last().map_values(|n: Seq<char>| dashed(lower(n))).push(dashed(stem(lower(names(file).last())))),
            "/"@,
        )),
{
    let ns = names(file).map_values(|n: Seq<char>| lower(n));
    let folders = names(file).drop_last().map_values(|n: Seq<char>| dashed(lower(n)));
    let own = dashed(stem(lower(names(file).last())));
    assert(ns.drop_last().map_values(|n: Seq<char>| dashed(n)) =~= folders);
    assert(ns.last() == lower(names(file).last()));
    let segs = alias_segments(file);
    assert(segs == folders.push(own));
    assert(segs.skip(0) =~= segs);
    assert(suffixes(segs)[0] == join(segs, "/"@));
    assert(alias_candidates(file)[0] == suffixes(segs)[0]);
    let k = segs.len() - 1;
    assert(segs.skip(k) =~= seq![own]);
    assert(join(seq![own], "/"@) == own);
    assert(alias_candidates(file)[k] == suffixes(segs)[k]);
}

} // verus!
