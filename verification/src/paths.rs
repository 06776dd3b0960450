//! Relative paths, written as text with `/` between the folder names.
//!
//! A path's meaningful parts are its names: the pieces between slashes that
//! are neither empty nor `.` or `..`, which is what `Component::Normal`
//! yields for a relative path.

use vstd::prelude::*;
use crate::text::{eq_chars, slice_chars, split, split_exec, Sep};

verus! {

/// Whether one piece of a path is a real name rather than a separator run,
/// `.` or `..`.
pub open spec fn is_name(piece: Seq<char>) -> bool {
    piece.len() > 0 && piece != seq!['.'] && piece != seq!['.', '.']
}

/// The names a path is made of, outermost first.
pub open spec fn names(path: Seq<char>) -> Seq<Seq<char>> {
    split(path, Sep::Slash).filter(|piece: Seq<char>| is_name(piece))
}

/// Whether a piece between separators is counted as a component: any but
/// an empty piece and `.`.
pub open spec fn is_component(piece: Seq<char>) -> bool {
    piece.len() > 0 && piece != seq!['.']
}

/// How many components a path written with `/` has, as `Path` counts
/// them: a root where the path begins with `/`, a leading `.` where it
/// begins with one, and every other piece but the empty ones and `.`
/// (`..` included).
pub open spec fn component_count(path: Seq<char>) -> nat {
    let pieces = split(path, Sep::Slash);
    let rooted = path.len() > 0 && path[0] == '/';
    (if rooted {
        1nat
    } else {
        0nat
    }) + (if !rooted && pieces.len() > 0 && pieces[0] == seq!['.'] {
        1nat
    } else {
        0nat
    }) + pieces.filter(|piece: Seq<char>| is_component(piece)).len()
}

/// The final name of a path, or nothing when it has none.
pub open spec fn file_name(path: Seq<char>) -> Seq<char> {
    let n = names(path);
    if n.len() == 0 {
        Seq::<char>::empty()
    } else {
        n.last()
    }
}

/// The position of the last `.` in `name`, or `-1`.
pub open spec fn last_dot(name: Seq<char>) -> int
    decreases name.len(),
{
    if name.len() == 0 {
        -1
    } else if name.last() == '.' {
        name.len() - 1
    } else {
        last_dot(name.drop_last())
    }
}

/// Whether a file name has an extension: a `.` somewhere after its first
/// character.
pub open spec fn has_extension(name: Seq<char>) -> bool {
    last_dot(name) > 0
}

/// A file name without its extension, as `Path::file_stem` gives it.
pub open spec fn stem(name: Seq<char>) -> Seq<char> {
    if has_extension(name) {
        name.take(last_dot(name))
    } else {
        name
    }
}

/// A file name's extension, as `Path::extension` gives it, or nothing.
pub open spec fn extension(name: Seq<char>) -> Seq<char> {
    if has_extension(name) {
        name.skip(last_dot(name) + 1)
    } else {
        Seq::<char>::empty()
    }
}

pub proof fn lemma_last_dot_bounds(name: Seq<char>)
    ensures
        -1 <= last_dot(name) < name.len(),
        last_dot(name) >= 0 ==> name[last_dot(name)] == '.',
        forall|j: int| last_dot(name) < j < name.len() ==> name[j] != '.',
    decreases name.len(),
{
    if name.len() > 0 && name.last() != '.' {
        lemma_last_dot_bounds(name.drop_last());
        assert(forall|j: int| 0 <= j < name.len() - 1 ==> name.drop_last()[j] == name[j]);
    }
}

/// The names of a path, with the pieces each came from.
pub fn names_exec(path: &[char]) -> (r: Vec<Vec<char>>)
    ensures
        r@.map_values(|p: Vec<char>| p@) == names(path@),
{
    let parts = split_exec(path, Sep::Slash);
    let ghost all = parts@.map_values(|p: Vec<char>| p@);
    let mut r: Vec<Vec<char>> = Vec::new();
    let mut i: usize = 0;
    while i < parts.len()
        invariant
            i <= parts.len(),
            all == parts@.map_values(|p: Vec<char>| p@),
            r@.map_values(|p: Vec<char>| p@) == all.take(i as int).filter(
                |piece: Seq<char>| is_name(piece),
            ),
        decreases parts.len() - i,
    {
        let piece = &parts[i];
        let keep = piece.len() > 0 && !eq_chars(piece, &['.']) && !eq_chars(piece, &['.', '.']);
        proof {
            assert(seq!['.'] =~= [ '.' ]@);
            assert(seq!['.', '.'] =~= [ '.', '.' ]@);
        }
        let ghost before = r@.map_values(|p: Vec<char>| p@);
        assert(all.take(i + 1).drop_last() =~= all.take(i as int));
        reveal(Seq::filter);
        if keep {
            assert(piece@.subrange(0, piece.len() as int) =~= piece@);
            r.push(slice_chars(piece, 0, piece.len()));
            assert(r@.map_values(|p: Vec<char>| p@) =~= before.push(all[i as int]));
        } else {
            assert(r@.map_values(|p: Vec<char>| p@) =~= before);
        }
        i = i + 1;
    }
    assert(all.take(parts.len() as int) =~= all);
    r
}

/// Whether a path has at most two components.
pub fn at_most_two_components(path: &[char]) -> (r: bool)
    ensures
        r == (component_count(path@) <= 2),
{
    let parts = split_exec(path, Sep::Slash);
    let ghost all = parts@.map_values(|p: Vec<char>| p@);
    let rooted = path.len() > 0 && path[0] == '/';
    let mut n: usize = 0;
    let mut i: usize = 0;
    proof {
        assert(seq!['.'] =~= [ '.' ]@);
    }
    while i < parts.len()
        invariant
            i <= parts.len(),
            all == parts@.map_values(|p: Vec<char>| p@),
            n == if all.take(i as int).filter(|piece: Seq<char>| is_component(piece)).len() < 3 {
                all.take(i as int).filter(|piece: Seq<char>| is_component(piece)).len()
            } else {
                3
            },
        decreases parts.len() - i,
    {
        let piece = &parts[i];
        let keep = piece.len() > 0 && !eq_chars(piece, &['.']);
        let ghost before = all.take(i as int).filter(|piece: Seq<char>| is_component(piece));
        proof {
            assert(seq!['.'] =~= [ '.' ]@);
        }
        assert(all.take(i + 1).drop_last() =~= all.take(i as int));
        assert(all[i as int] == piece@);
        reveal(Seq::filter);
        if keep {
            assert(all.take(i + 1).filter(|piece: Seq<char>| is_component(piece)) =~= before.push(all[i as int]));
        } else {
            assert(all.take(i + 1).filter(|piece: Seq<char>| is_component(piece)) =~= before);
        }
        if keep && n < 3 {
            n = n + 1;
        }
        i = i + 1;
    }
    assert(all.take(parts.len() as int) =~= all);
    let lead = !rooted && parts.len() > 0 && eq_chars(&parts[0], &['.']);
    let extra: usize = if rooted {
        1
    } else if lead {
        1
    } else {
        0
    };
    n + extra <= 2
}

/// The final name of a path.
pub fn file_name_exec(path: &[char]) -> (r: Vec<char>)
    ensures
        r@ == file_name(path@),
{
    let n = names_exec(path);
    if n.len() == 0 {
        Vec::new()
    } else {
        let last = &n[n.len() - 1];
        slice_chars(last, 0, last.len())
    }
}

/// The position of the last `.` in `name`.
pub fn last_dot_exec(name: &[char]) -> (r: Option<usize>)
    ensures
        match r {
            Some(i) => i as int == last_dot(name@),
            None => last_dot(name@) == -1,
        },
{
    let mut n = name.len();
    assert(name@.take(n as int) =~= name@);
    while n > 0
        invariant
            n <= name.len(),
            last_dot(name@) == last_dot(name@.take(n as int)),
        decreases n,
    {
        if name[n - 1] == '.' {
            return Some(n - 1);
        }
        assert(name@.take(n as int).drop_last() =~= name@.take(n - 1));
        n = n - 1;
    }
    None
}

/// A file name without its extension.
pub fn stem_exec(name: &[char]) -> (r: Vec<char>)
    ensures
        r@ == stem(name@),
{
    proof {
        lemma_last_dot_bounds(name@);
    }
    match last_dot_exec(name) {
        Some(i) if i > 0 => slice_chars(name, 0, i),
        _ => slice_chars(name, 0, name.len()),
    }
}

/// A file name's extension, or nothing.
pub fn extension_exec(name: &[char]) -> (r: Vec<char>)
    ensures
        r@ == extension(name@),
{
    proof {
        lemma_last_dot_bounds(name@);
    }
    match last_dot_exec(name) {
        Some(i) => {
            if i > 0 {
                assert(i < name.len());
                slice_chars(name, i + 1, name.len())
            } else {
                Vec::new()
            }
        },
        None => Vec::new(),
    }
}

} // verus!
