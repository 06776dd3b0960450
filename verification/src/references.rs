//! Resolving imports as paths, and counting how many files lean on each.
//!
//! An import names a place, and every language writes that place as a path
//! through the folder tree. A relative import is resolved against the folder
//! of the file that wrote it; anything else by the longest run of its
//! segments that names a real file, nearest the front on a tie.

use vstd::prelude::*;
use crate::aliases::{alias_candidates, aliases_chars, strictly_sorted};
use crate::imports::{ccv, cv, ssv, sv, char_vecs_of};
use crate::paths::{names, names_exec};
use crate::text::{
    chars_of, eq_chars, has_char, has_char_exec, join, lower, lower_exec, slice_chars, utf8_len,
    utf8_width,
};

verus! {

/// The fewest bytes a single-segment name needs to be resolved on its own.
pub const MIN_NAME: usize = 3;

/// The most files one import may credit before it counts as noise.
pub const MAX_TIED: usize = 4;

/// Whether `file` answers to `name`.
pub open spec fn answers(file: Seq<char>, name: Seq<char>) -> bool {
    alias_candidates(file).contains(name)
}

/// The positions among the first `n` files that answer to `name`, ascending.
pub open spec fn answering(files: Seq<Seq<char>>, name: Seq<char>, n: int) -> Seq<usize>
    decreases n,
{
    if n <= 0 {
        Seq::<usize>::empty()
    } else {
        answering(files, name, n - 1) + if answers(files[n - 1], name) {
            seq![(n - 1) as usize]
        } else {
            Seq::<usize>::empty()
        }
    }
}

/// The files an exact path names, if it is specific enough: a single segment
/// only counts at the head of an import and when at least three bytes long,
/// and a name more than four files answer to counts for nothing.
pub open spec fn lookup_of(files: Seq<Seq<char>>, candidate: Seq<char>, at_head: bool) -> Seq<
    usize,
> {
    let single = !has_char(candidate, '/');
    if single && (!at_head || utf8_len(candidate) < MIN_NAME) {
        Seq::<usize>::empty()
    } else {
        let found = answering(files, candidate, files.len() as int);
        if found.len() <= MAX_TIED {
            found
        } else {
            Seq::<usize>::empty()
        }
    }
}

/// Runs of `length` segments from `start` on, first to last; the first that
/// names something wins.
pub open spec fn search_start(files: Seq<Seq<char>>, spec: Seq<Seq<char>>, length: int, start: int) -> Seq<
    usize,
>
    decreases spec.len() - start,
{
    if start < 0 || length < 1 || start + length > spec.len() {
        Seq::<usize>::empty()
    } else {
        let found = lookup_of(files, join(spec.subrange(start, start + length), "/"@), start == 0);
        if found.len() > 0 {
            found
        } else {
            search_start(files, spec, length, start + 1)
        }
    }
}

/// Runs of every length from `length` down, longest first.
pub open spec fn search_len(files: Seq<Seq<char>>, spec: Seq<Seq<char>>, length: int) -> Seq<usize>
    decreases length,
{
    if length < 1 {
        Seq::<usize>::empty()
    } else {
        let found = search_start(files, spec, length, 0);
        if found.len() > 0 {
            found
        } else {
            search_len(files, spec, length - 1)
        }
    }
}

/// The folder a relative import starts from after its `.` and `..` steps,
/// and the segments left after them.
pub open spec fn walk_steps(base: Seq<Seq<char>>, rest: Seq<Seq<char>>) -> (Seq<Seq<char>>, Seq<
    Seq<char>,
>)
    decreases rest.len(),
{
    if rest.len() > 0 && rest[0] == seq!['.'] {
        walk_steps(base, rest.drop_first())
    } else if rest.len() > 0 && rest[0] == seq!['.', '.'] {
        walk_steps(
            if base.len() > 0 {
                base.drop_last()
            } else {
                base
            },
            rest.drop_first(),
        )
    } else {
        (base, rest)
    }
}

/// The folder a file sits in, as names.
pub open spec fn parent_names(from: Seq<char>) -> Seq<Seq<char>> {
    let ns = names(from);
    if ns.len() > 0 {
        ns.drop_last()
    } else {
        ns
    }
}

/// The files an import written in `from` could mean, best guess first.
pub open spec fn resolve_of(files: Seq<Seq<char>>, spec: Seq<Seq<char>>, from: Seq<char>) -> Seq<
    usize,
> {
    if spec.len() == 0 {
        Seq::<usize>::empty()
    } else if spec[0] == seq!['.'] || spec[0] == seq!['.', '.'] {
        let (base, rest) = walk_steps(parent_names(from), spec);
        lookup_of(files, join(base.map_values(|n: Seq<char>| lower(n)) + rest, "/"@), true)
    } else {
        search_len(files, spec, spec.len() as int)
    }
}

/// A name lists each file that answers to it once, in file order: a file
/// indexed twice under one name is still one file.
pub proof fn law_a_name_lists_each_file_once(files: Seq<Seq<char>>, name: Seq<char>, n: int)
    requires
        n <= files.len(),
        n <= usize::MAX,
    ensures
        forall|i: int| 0 <= i < answering(files, name, n).len() ==> #[trigger] answering(files, name, n)[i] < n,
        forall|i: int, j: int| 0 <= i < j < answering(files, name, n).len() ==> answering(files, name, n)[i] < answering(files, name, n)[j],
    decreases n,
{
    if n > 0 {
        law_a_name_lists_each_file_once(files, name, n - 1);
        let a = answering(files, name, n - 1);
        let r = answering(files, name, n);
        assert forall|i: int| 0 <= i < r.len() implies #[trigger] r[i] < n by {
            if i < a.len() {
                assert(r[i] == a[i]);
            } else {
                assert(r[i] == n - 1);
            }
        }
        assert forall|i: int, j: int| 0 <= i < j < r.len() implies r[i] < r[j] by {
            if j < a.len() {
                assert(r[i] == a[i]);
                assert(r[j] == a[j]);
            } else if i < a.len() {
                assert(r[i] == a[i]);
                assert(a[i] < n - 1);
                assert(r[j] == n - 1);
            }
        }
    }
}

/// Every name each file answers to, so an import can be looked up as a path.
pub struct FileIndex {
    names: Vec<Vec<char>>,
    ids: Vec<Vec<usize>>,
    files: Ghost<Seq<Seq<char>>>,
}

/// The first position of `name` in `ns`, or `-1`.
pub open spec fn position_of(ns: Seq<Seq<char>>, name: Seq<char>) -> int
    decreases ns.len(),
{
    if ns.len() == 0 {
        -1
    } else {
        let p = position_of(ns.drop_last(), name);
        if p >= 0 {
            p
        } else if ns.last() == name {
            ns.len() - 1
        } else {
            -1
        }
    }
}

proof fn lemma_position_of(ns: Seq<Seq<char>>, name: Seq<char>)
    ensures
        -1 <= position_of(ns, name) < ns.len(),
        position_of(ns, name) >= 0 ==> ns[position_of(ns, name)] == name,
        position_of(ns, name) < 0 ==> !ns.contains(name),
        forall|j: int| 0 <= j < position_of(ns, name) ==> ns[j] != name,
    decreases ns.len(),
{
    if ns.len() > 0 {
        lemma_position_of(ns.drop_last(), name);
        assert(forall|j: int| 0 <= j < ns.len() - 1 ==> ns.drop_last()[j] == ns[j]);
        if position_of(ns, name) < 0 {
            assert forall|j: int| 0 <= j < ns.len() implies ns[j] != name by {
                if j < ns.len() - 1 {
                    assert(ns.drop_last()[j] == ns[j]);
                    assert(ns.drop_last().contains(ns[j]));
                }
            }
        }
        if position_of(ns.drop_last(), name) < 0 && ns.last() == name {
            assert forall|j: int| 0 <= j < ns.len() - 1 implies ns[j] != name by {
                assert(ns.drop_last()[j] == ns[j]);
                assert(ns.drop_last().contains(ns[j]));
            }
        }
    }
}

/// Where `name` first stands in `ns`.
fn position_exec(ns: &Vec<Vec<char>>, name: &Vec<char>) -> (r: Option<usize>)
    ensures
        match r {
            Some(k) => k < ns.len() && cv(ns@)[k as int] == name@ && forall|j: int|
                0 <= j < k ==> cv(ns@)[j] != name@,
            None => forall|j: int| 0 <= j < ns.len() ==> cv(ns@)[j] != name@,
        },
{
    let mut k: usize = 0;
    while k < ns.len()
        invariant
            k <= ns.len(),
            forall|j: int| 0 <= j < k ==> cv(ns@)[j] != name@,
        decreases ns.len() - k,
    {
        if eq_chars(&ns[k], name) {
            return Some(k);
        }
        k = k + 1;
    }
    None
}

impl FileIndex {
    /// The files indexed under exactly `name`, ascending.
    pub closed spec fn entry(&self, name: Seq<char>) -> Seq<usize> {
        let p = position_of(cv(self.names@), name);
        if p >= 0 && p < self.ids.len() {
            self.ids@[p]@
        } else {
            Seq::<usize>::empty()
        }
    }

    /// The index holds, for every name, exactly the files among `files` that
    /// answer to it.
    pub closed spec fn indexes(&self, files: Seq<Seq<char>>) -> bool {
        &&& self.names.len() == self.ids.len()
        &&& forall|name: Seq<char>| #[trigger] self.entry(name) == answering(files, name, files.len() as int)
    }

    /// The paths the index was built from.
    pub closed spec fn files(&self) -> Seq<Seq<char>> {
        self.files@
    }

    /// The index holds every name its files answer to, and nothing else.
    pub closed spec fn wf(&self) -> bool {
        self.indexes(self.files@)
    }

    /// Indexes every name each of `files` answers to.
    pub fn build(files: &[String]) -> (index: Self)
        ensures
            index.wf(),
            index.files() == sv(files@),
    {
        let mut fs: Vec<Vec<char>> = Vec::new();
        let mut i: usize = 0;
        while i < files.len()
            invariant
                i <= files.len(),
                fs@.len() == i,
                forall|j: int| 0 <= j < i ==> #[trigger] fs@[j]@ == files@[j]@,
            decreases files.len() - i,
        {
            fs.push(chars_of(files[i].as_str()));
            i = i + 1;
        }
        assert(cv(fs@) =~= sv(files@));
        Self::build_chars(&fs)
    }

    /// The files indexed under exactly this path, if it is specific enough.
    pub fn lookup(&self, candidate: &str, at_head: bool) -> (r: Vec<usize>)
        requires
            self.wf(),
        ensures
            r@ == lookup_of(self.files(), candidate@, at_head),
    {
        let c = chars_of(candidate);
        self.lookup_chars(&c, at_head)
    }

    /// The same, over the path's characters.
    pub fn lookup_chars(&self, candidate: &[char], at_head: bool) -> (r: Vec<usize>)
        requires
            self.wf(),
        ensures
            r@ == lookup_of(self.files(), candidate@, at_head),
    {
        let single = !has_char_exec(candidate, '/');
        if single && (!at_head || crate::imports::utf8_len_at_most(candidate, 2)) {
            return Vec::new();
        }
        let cand = slice_chars(candidate, 0, candidate.len());
        assert(candidate@.subrange(0, candidate.len() as int) =~= candidate@);
        let found = position_exec(&self.names, &cand);
        let ghost fv = self.files@;
        assert(self.entry(candidate@) == answering(fv, candidate@, fv.len() as int));
        proof {
            lemma_position_of(cv(self.names@), candidate@);
        }
        match found {
            Some(k) => {
                assert(position_of(cv(self.names@), candidate@) == k);
                if self.ids[k].len() <= MAX_TIED {
                    self.ids[k].clone()
                } else {
                    Vec::new()
                }
            },
            None => {
                assert(position_of(cv(self.names@), candidate@) < 0) by {
                    if position_of(cv(self.names@), candidate@) >= 0 {
                        assert(cv(self.names@)[position_of(cv(self.names@), candidate@)] == candidate@);
                    }
                }
                Vec::new()
            },
        }
    }

    /// The same, over the paths' characters.
    pub fn build_chars(files: &Vec<Vec<char>>) -> (index: Self)
        ensures
            index.wf(),
            index.files() == cv(files@),
    {
        let ghost fv = cv(files@);
        let mut index = FileIndex { names: Vec::new(), ids: Vec::new(), files: Ghost(fv) };
        assert forall|name: Seq<char>| #[trigger] index.entry(name) == answering(fv, name, 0) by {}
        let mut id: usize = 0;
        while id < files.len()
            invariant
                id <= files.len(),
                fv == cv(files@),
                index.names.len() == index.ids.len(),
                index.files@ == fv,
                forall|name: Seq<char>| #[trigger] index.entry(name) == answering(fv, name, id as int),
            decreases files.len() - id,
        {
            let names = aliases_chars(&files[id]);
            let ghost nv = cv(names@);
            let mut m: usize = 0;
            while m < names.len()
                invariant
                    id < files.len(),
                    m <= names.len(),
                    fv == cv(files@),
                    nv == cv(names@),
                    strictly_sorted(nv),
                    index.names.len() == index.ids.len(),
                    index.files@ == fv,
                    forall|name: Seq<char>| #[trigger] index.entry(name) == answering(fv, name, id as int)
                        + if nv.take(m as int).contains(name) {
                        seq![id]
                    } else {
                        Seq::<usize>::empty()
                    },
                decreases names.len() - m,
            {
                index.add(&names[m], id, Ghost(fv), Ghost(nv), m);
                m = m + 1;
            }
            assert(nv.take(names.len() as int) =~= nv);
            assert forall|name: Seq<char>| #[trigger] index.entry(name) == answering(fv, name, id + 1) by {
                assert(nv.to_set().contains(name) == nv.contains(name));
                assert(alias_candidates(fv[id as int]).to_set().contains(name)
                    == alias_candidates(fv[id as int]).contains(name));
            }
            id = id + 1;
        }
        index
    }

    /// Records that file `id` answers to `name`, the `m`th of its names.
    fn add(
        &mut self,
        name: &Vec<char>,
        id: usize,
        Ghost(fv): Ghost<Seq<Seq<char>>>,
        Ghost(nv): Ghost<Seq<Seq<char>>>,
        m: usize,
    )
        requires
            id < fv.len(),
            m < nv.len(),
            nv[m as int] == name@,
            strictly_sorted(nv),
            old(self).names.len() == old(self).ids.len(),
            forall|n: Seq<char>| #[trigger] old(self).entry(n) == answering(fv, n, id as int) + if nv.take(
                m as int,
            ).contains(n) {
                seq![id]
            } else {
                Seq::<usize>::empty()
            },
        ensures
            final(self).names.len() == final(self).ids.len(),
            final(self).files == old(self).files,
            forall|n: Seq<char>| #[trigger] final(self).entry(n) == answering(fv, n, id as int) + if nv.take(
                m + 1,
            ).contains(n) {
                seq![id]
            } else {
                Seq::<usize>::empty()
            },
    {
        let ghost old_names = cv(self.names@);
        assert(!nv.take(m as int).contains(name@)) by {
            if nv.take(m as int).contains(name@) {
                let j = choose|j: int| 0 <= j < m && #[trigger] nv.take(m as int)[j] == name@;
                crate::text::lemma_chars_lt_irreflexive(name@);
            }
        }
        assert(nv.take(m + 1) =~= nv.take(m as int).push(name@));
        proof {
            lemma_position_of(old_names, name@);
            law_a_name_lists_each_file_once(fv, name@, id as int);
        }
        let found = position_exec(&self.names, name);
        assert(old(self).entry(name@) == answering(fv, name@, id as int) + Seq::<usize>::empty());
        if let Some(k) = found {
            assert(old_names[k as int] == name@);
            assert(position_of(old_names, name@) == k);
            let mut entry = self.ids[k].clone();
            assert(entry@ =~= self.ids@[k as int]@);
            assert(entry@ =~= answering(fv, name@, id as int));
            let last_is_id = entry.len() > 0 && entry[entry.len() - 1] == id;
            assert(!last_is_id);
            entry.push(id);
            self.ids[k] = entry;
            assert forall|n: Seq<char>| #[trigger] self.entry(n) == answering(fv, n, id as int) + if nv.take(
                m + 1,
            ).contains(n) {
                seq![id]
            } else {
                Seq::<usize>::empty()
            } by {
                lemma_position_of(old_names, n);
                assert(cv(self.names@) == old_names);
                let _ = old(self).entry(n);
                if n != name@ {
                    assert(nv.take(m + 1).contains(n) == nv.take(m as int).contains(n)) by {
                        if nv.take(m + 1).contains(n) {
                            let j = choose|j: int| 0 <= j < m + 1 && #[trigger] nv.take(m + 1)[j] == n;
                            assert(nv.take(m as int)[j] == n);
                        }
                        if nv.take(m as int).contains(n) {
                            let j = choose|j: int| 0 <= j < m && #[trigger] nv.take(m as int)[j] == n;
                            assert(nv.take(m + 1)[j] == n);
                        }
                    }
                    if position_of(old_names, n) == k {
                        assert(false);
                    }
                } else {
                    assert(nv.take(m + 1)[m as int] == n);
                    assert(nv.take(m + 1).contains(n));
                }
            }
        } else {
            assert(position_of(old_names, name@) < 0) by {
                if position_of(old_names, name@) >= 0 {
                    assert(old_names[position_of(old_names, name@)] == name@);
                }
            }
            let copy = slice_chars(name, 0, name.len());
            assert(name@.subrange(0, name.len() as int) =~= name@);
            self.names.push(copy);
            let mut fresh: Vec<usize> = Vec::new();
            fresh.push(id);
            self.ids.push(fresh);
            let ghost new_names = cv(self.names@);
            assert(new_names =~= old_names.push(name@));
            assert forall|n: Seq<char>| #[trigger] self.entry(n) == answering(fv, n, id as int) + if nv.take(
                m + 1,
            ).contains(n) {
                seq![id]
            } else {
                Seq::<usize>::empty()
            } by {
                lemma_position_of(old_names, n);
                assert(new_names.drop_last() =~= old_names);
                let _ = old(self).entry(n);
                if n != name@ {
                    assert(nv.take(m + 1).contains(n) == nv.take(m as int).contains(n)) by {
                        if nv.take(m + 1).contains(n) {
                            let j = choose|j: int| 0 <= j < m + 1 && #[trigger] nv.take(m + 1)[j] == n;
                            assert(nv.take(m as int)[j] == n);
                        }
                        if nv.take(m as int).contains(n) {
                            let j = choose|j: int| 0 <= j < m && #[trigger] nv.take(m as int)[j] == n;
                            assert(nv.take(m + 1)[j] == n);
                        }
                    }
                } else {
                    assert(nv.take(m + 1)[m as int] == n);
                    assert(nv.take(m + 1).contains(n));
                    assert(answering(fv, n, id as int) + Seq::<usize>::empty() =~= answering(fv, n, id as int));
                }
            }
        }
    }
}

/// Whether source file `s` refers to target file `t`: some import it writes
/// resolves to `t`, and `t` is another file.
pub open spec fn refers(
    files: Seq<Seq<char>>,
    mentions: Seq<Seq<Seq<Seq<char>>>>,
    s: int,
    t: int,
) -> bool {
    s != t && exists|k: int|
        0 <= k < mentions[s].len() && #[trigger] resolve_of(files, mentions[s][k], files[s]).contains(
            t as usize,
        )
}

/// How many of the first `n` sources refer to file `t`.
pub open spec fn referrers(
    files: Seq<Seq<char>>,
    mentions: Seq<Seq<Seq<Seq<char>>>>,
    t: int,
    n: int,
) -> nat
    decreases n,
{
    if n <= 0 {
        0
    } else {
        referrers(files, mentions, t, n - 1) + if refers(files, mentions, n - 1, t) {
            1nat
        } else {
            0nat
        }
    }
}

proof fn lemma_lookup_bounds(files: Seq<Seq<char>>, c: Seq<char>, h: bool)
    requires
        files.len() <= usize::MAX,
    ensures
        forall|i: int| 0 <= i < lookup_of(files, c, h).len() ==> #[trigger] lookup_of(files, c, h)[i] < files.len(),
{
    law_a_name_lists_each_file_once(files, c, files.len() as int);
}

proof fn lemma_search_start_bounds(files: Seq<Seq<char>>, spec: Seq<Seq<char>>, length: int, start: int)
    requires
        files.len() <= usize::MAX,
    ensures
        forall|i: int| 0 <= i < search_start(files, spec, length, start).len() ==> #[trigger] search_start(files, spec, length, start)[i] < files.len(),
    decreases spec.len() - start,
{
    if !(start < 0 || length < 1 || start + length > spec.len()) {
        let f = lookup_of(files, join(spec.subrange(start, start + length), "/"@), start == 0);
        lemma_lookup_bounds(files, join(spec.subrange(start, start + length), "/"@), start == 0);
        lemma_search_start_bounds(files, spec, length, start + 1);
        if f.len() > 0 {
            assert(search_start(files, spec, length, start) == f);
        } else {
            assert(search_start(files, spec, length, start) == search_start(files, spec, length, start + 1));
        }
    }
}

proof fn lemma_search_len_bounds(files: Seq<Seq<char>>, spec: Seq<Seq<char>>, length: int)
    requires
        files.len() <= usize::MAX,
    ensures
        forall|i: int| 0 <= i < search_len(files, spec, length).len() ==> #[trigger] search_len(files, spec, length)[i] < files.len(),
    decreases length,
{
    if length >= 1 {
        lemma_search_start_bounds(files, spec, length, 0);
        lemma_search_len_bounds(files, spec, length - 1);
        if search_start(files, spec, length, 0).len() > 0 {
            assert(search_len(files, spec, length) == search_start(files, spec, length, 0));
        } else {
            assert(search_len(files, spec, length) == search_len(files, spec, length - 1));
        }
    }
}

/// Everything an import resolves to is one of the files scanned.
pub proof fn law_an_import_resolves_to_known_files(files: Seq<Seq<char>>, spec: Seq<Seq<char>>, from: Seq<char>)
    requires
        files.len() <= usize::MAX,
    ensures
        forall|i: int| 0 <= i < resolve_of(files, spec, from).len() ==> #[trigger] resolve_of(files, spec, from)[i] < files.len(),
{
    if spec.len() > 0 {
        if spec[0] == seq!['.'] || spec[0] == seq!['.', '.'] {
            let (base, rest) = walk_steps(parent_names(from), spec);
            lemma_lookup_bounds(files, join(base.map_values(|n: Seq<char>| lower(n)) + rest, "/"@), true);
        } else {
            lemma_search_len_bounds(files, spec, spec.len() as int);
        }
    }
}

/// `parts` joined with `/`.
fn join_all(parts: &Vec<Vec<char>>) -> (r: Vec<char>)
    ensures
        r@ == join(cv(parts@), "/"@),
{
    if parts.len() == 0 {
        Vec::new()
    } else {
        assert(cv(parts@).skip(0) =~= cv(parts@));
        crate::aliases::join_from(parts, 0)
    }
}

/// A copy of `parts[from..to]`.
fn copy_range(parts: &Vec<Vec<char>>, from: usize, to: usize) -> (r: Vec<Vec<char>>)
    requires
        from <= to <= parts.len(),
    ensures
        cv(r@) == cv(parts@).subrange(from as int, to as int),
{
    let mut r: Vec<Vec<char>> = Vec::new();
    let mut i = from;
    while i < to
        invariant
            from <= i <= to,
            to <= parts.len(),
            cv(r@) == cv(parts@).subrange(from as int, i as int),
        decreases to - i,
    {
        let piece = slice_chars(&parts[i], 0, parts[i].len());
        assert(parts@[i as int]@.subrange(0, parts@[i as int]@.len() as int) =~= parts@[i as int]@);
        let ghost before = cv(r@);
        r.push(piece);
        assert(cv(r@) =~= before.push(cv(parts@)[i as int]));
        i = i + 1;
        assert(cv(r@) =~= cv(parts@).subrange(from as int, i as int));
    }
    r
}

impl FileIndex {
    /// The files an import specifier could mean, best guess first.
    pub fn resolve(&self, specifier: &Vec<String>, from: &str) -> (r: Vec<usize>)
        requires
            self.wf(),
        ensures
            r@ == resolve_of(self.files(), sv(specifier@), from@),
    {
        let spec = char_vecs_of(specifier);
        let f = chars_of(from);
        self.resolve_chars(&spec, &f)
    }

    /// The same, over characters.
    pub fn resolve_chars(&self, spec: &Vec<Vec<char>>, from: &[char]) -> (r: Vec<usize>)
        requires
            self.wf(),
        ensures
            r@ == resolve_of(self.files(), cv(spec@), from@),
    {
        if spec.len() == 0 {
            return Vec::new();
        }
        let ghost sp = cv(spec@);
        let dot = eq_chars(&spec[0], &['.']);
        let dotdot = eq_chars(&spec[0], &['.', '.']);
        proof {
            assert(seq!['.'] =~= [ '.' ]@);
            assert(seq!['.', '.'] =~= [ '.', '.' ]@);
        }
        if dot || dotdot {
            let ns = names_exec(from);
            let mut base: Vec<Vec<char>> = if ns.len() > 0 {
                copy_range(&ns, 0, ns.len() - 1)
            } else {
                Vec::new()
            };
            assert(cv(base@) == parent_names(from@)) by {
                if ns.len() > 0 {
                    assert(cv(ns@).subrange(0, ns.len() - 1) =~= cv(ns@).drop_last());
                } else {
                    assert(cv(base@) =~= cv(ns@));
                }
            }
            let mut i: usize = 0;
            assert(sp.skip(0) =~= sp);
            while i < spec.len() && (eq_chars(&spec[i], &['.']) || eq_chars(&spec[i], &['.', '.']))
                invariant
                    i <= spec.len(),
                    sp == cv(spec@),
                    walk_steps(parent_names(from@), sp) == walk_steps(cv(base@), sp.skip(i as int)),
                decreases spec.len() - i,
            {
                let ghost rest = sp.skip(i as int);
                assert(rest[0] == spec@[i as int]@);
                assert(rest.drop_first() =~= sp.skip(i + 1));
                assert(seq!['.'] =~= [ '.' ]@);
                assert(seq!['.', '.'] =~= [ '.', '.' ]@);
                if eq_chars(&spec[i], &['.', '.']) && base.len() > 0 {
                    let ghost before = cv(base@);
                    base.pop();
                    assert(cv(base@) =~= before.drop_last());
                }
                i = i + 1;
            }
            let ghost rest = sp.skip(i as int);
            assert(walk_steps(cv(base@), rest) == (cv(base@), rest)) by {
                if rest.len() > 0 {
                    assert(rest[0] == spec@[i as int]@);
                }
            }
            let mut joined: Vec<Vec<char>> = Vec::new();
            let mut j: usize = 0;
            while j < base.len()
                invariant
                    j <= base.len(),
                    cv(joined@) == cv(base@).take(j as int).map_values(|n: Seq<char>| lower(n)),
                decreases base.len() - j,
            {
                let ghost before = cv(joined@);
                joined.push(lower_exec(&base[j]));
                assert(cv(joined@) =~= before.push(lower(cv(base@)[j as int])));
                j = j + 1;
                assert(cv(joined@) =~= cv(base@).take(j as int).map_values(|n: Seq<char>| lower(n)));
            }
            assert(cv(base@).take(base.len() as int) =~= cv(base@));
            let ghost lowered = cv(joined@);
            let mut k = i;
            while k < spec.len()
                invariant
                    i <= k <= spec.len(),
                    cv(joined@) == lowered + sp.subrange(i as int, k as int),
                    sp == cv(spec@),
                decreases spec.len() - k,
            {
                let piece = slice_chars(&spec[k], 0, spec[k].len());
                assert(spec@[k as int]@.subrange(0, spec@[k as int]@.len() as int) =~= spec@[k as int]@);
                let ghost before = cv(joined@);
                joined.push(piece);
                assert(cv(joined@) =~= before.push(sp[k as int]));
                k = k + 1;
                assert(cv(joined@) =~= lowered + sp.subrange(i as int, k as int));
            }
            assert(sp.subrange(i as int, spec.len() as int) =~= rest);
            let candidate = join_all(&joined);
            return self.lookup_chars(&candidate, true);
        }
        assert(resolve_of(self.files(), sp, from@) == search_len(self.files(), sp, sp.len() as int));
        let mut length = spec.len();
        while length >= 1
            invariant
                length <= spec.len(),
                sp == cv(spec@),
                self.wf(),
                search_len(self.files(), sp, sp.len() as int) == search_len(self.files(), sp, length as int),
                resolve_of(self.files(), sp, from@) == search_len(self.files(), sp, sp.len() as int),
            decreases length,
        {
            let mut start: usize = 0;
            while length <= spec.len() - start
                invariant
                    1 <= length <= spec.len(),
                    start <= spec.len(),
                    sp == cv(spec@),
                    self.wf(),
                    search_start(self.files(), sp, length as int, 0) == search_start(self.files(), sp, length as int, start as int),
                    search_len(self.files(), sp, sp.len() as int) == search_len(self.files(), sp, length as int),
                    resolve_of(self.files(), sp, from@) == search_len(self.files(), sp, sp.len() as int),
                decreases spec.len() - start,
            {
                let sub = copy_range(spec, start, start + length);
                let candidate = join_all(&sub);
                let found = self.lookup_chars(&candidate, start == 0);
                if found.len() > 0 {
                    assert(search_start(self.files(), sp, length as int, start as int) == found@);
                    assert(search_len(self.files(), sp, length as int) == found@);
                    return found;
                }
                assert(search_start(self.files(), sp, length as int, start as int) == search_start(self.files(), sp, length as int, start + 1));
                start = start + 1;
            }
            assert(search_start(self.files(), sp, length as int, start as int).len() == 0);
            assert(search_len(self.files(), sp, length as int) == search_len(self.files(), sp, length - 1));
            length = length - 1;
        }
        Vec::new()
    }
}

/// How many other files refer to each file: for each of `files`, how many of
/// the files whose imports are listed in `mentions` (by position) have some
/// import that resolves to it. A file leaning on another counts once, however
/// many of its imports say so.
pub fn count_references(files: &[String], mentions: &[Vec<Vec<String>>]) -> (r: Vec<usize>)
    requires
        mentions.len() <= files.len(),
    ensures
        r.len() == files.len(),
        forall|t: int| 0 <= t < files.len() ==> #[trigger] r@[t] == referrers(sv(files@), mentions@.map_values(|m: Vec<Vec<String>>| ssv(m@)), t, mentions.len() as int),
{
    let index = FileIndex::build(files);
    let ghost fv = sv(files@);
    let ghost mv = mentions@.map_values(|m: Vec<Vec<String>>| ssv(m@));
    let mut fs: Vec<Vec<char>> = Vec::new();
    let mut i: usize = 0;
    while i < files.len()
        invariant
            i <= files.len(),
            fs@.len() == i,
            forall|j: int| 0 <= j < i ==> #[trigger] fs@[j]@ == files@[j]@,
        decreases files.len() - i,
    {
        fs.push(chars_of(files[i].as_str()));
        i = i + 1;
    }
    let mut counts: Vec<usize> = Vec::new();
    let mut t: usize = 0;
    while t < files.len()
        invariant
            t <= files.len(),
            counts@.len() == t,
            forall|j: int| 0 <= j < t ==> #[trigger] counts@[j] == 0,
        decreases files.len() - t,
    {
        counts.push(0);
        t = t + 1;
    }
    let n = files.len();
    let mut source: usize = 0;
    while source < mentions.len()
        invariant
            source <= mentions.len(),
            mentions.len() <= n,
            n == files.len(),
            fv == sv(files@),
            mv == mentions@.map_values(|m: Vec<Vec<String>>| ssv(m@)),
            mv.len() == mentions.len(),
            index.wf(),
            index.files() == fv,
            fs@.len() == n,
            forall|j: int| 0 <= j < n ==> #[trigger] fs@[j]@ == files@[j]@,
            counts@.len() == n,
            forall|x: int| 0 <= x < n ==> #[trigger] counts@[x] == referrers(fv, mv, x, source as int),
            forall|x: int| 0 <= x < n ==> #[trigger] counts@[x] <= source,
        decreases mentions.len() - source,
    {
        let mut hit: Vec<bool> = Vec::new();
        let mut z: usize = 0;
        while z < n
            invariant
                z <= n,
                hit@.len() == z,
                forall|j: int| 0 <= j < z ==> !#[trigger] hit@[j],
            decreases n - z,
        {
            hit.push(false);
            z = z + 1;
        }
        let imported = &mentions[source];
        let ghost ms = mv[source as int];
        assert(ms == ssv(imported@));
        let mut k: usize = 0;
        while k < imported.len()
            invariant
                k <= imported.len(),
                source < n,
                n == files.len(),
                fv == sv(files@),
                ms == ssv(imported@),
                index.wf(),
                index.files() == fv,
                fs@.len() == n,
                forall|j: int| 0 <= j < n ==> #[trigger] fs@[j]@ == files@[j]@,
                hit@.len() == n,
                forall|x: int| 0 <= x < n ==> #[trigger] hit@[x] == (x != source && exists|k2: int|
                    0 <= k2 < k && #[trigger] resolve_of(fv, ms[k2], fv[source as int]).contains(x as usize)),
            decreases imported.len() - k,
        {
            let spec = char_vecs_of(&imported[k]);
            assert(cv(spec@) == ms[k as int]);
            assert(fs@[source as int]@ == fv[source as int]);
            let targets = index.resolve_chars(&spec, &fs[source]);
            let ghost res = resolve_of(fv, ms[k as int], fv[source as int]);
            proof {
                law_an_import_resolves_to_known_files(fv, ms[k as int], fv[source as int]);
            }
            let ghost hit0 = hit@;
            let mut j: usize = 0;
            while j < targets.len()
                invariant
                    j <= targets.len(),
                    targets@ == res,
                    forall|q: int| 0 <= q < res.len() ==> #[trigger] res[q] < n,
                    hit@.len() == n,
                    hit0.len() == n,
                    forall|x: int| 0 <= x < n ==> #[trigger] hit@[x] == (hit0[x] || (x != source
                        && res.take(j as int).contains(x as usize))),
                decreases targets.len() - j,
            {
                let target = targets[j];
                assert(target < n);
                if target != source {
                    hit.set(target, true);
                }
                j = j + 1;
                assert forall|x: int| 0 <= x < n implies #[trigger] hit@[x] == (hit0[x] || (x != source
                    && res.take(j as int).contains(x as usize))) by {
                    assert(res.take(j as int) =~= res.take(j - 1).push(target));
                    if x as usize == target {
                        assert(res.take(j as int)[j - 1] == target);
                    }
                    if res.take(j - 1).contains(x as usize) {
                        let q = choose|q: int| 0 <= q < j - 1 && #[trigger] res.take(j - 1)[q] == x as usize;
                        assert(res.take(j as int)[q] == x as usize);
                    }
                    if res.take(j as int).contains(x as usize) && x as usize != target {
                        let q = choose|q: int| 0 <= q < j && #[trigger] res.take(j as int)[q] == x as usize;
                        assert(res.take(j - 1)[q] == x as usize);
                    }
                }
            }
            assert(res.take(targets.len() as int) =~= res);
            k = k + 1;
            assert forall|x: int| 0 <= x < n implies #[trigger] hit@[x] == (x != source && exists|k2: int|
                0 <= k2 < k && #[trigger] resolve_of(fv, ms[k2], fv[source as int]).contains(x as usize)) by {
                if x != source && res.contains(x as usize) {
                    assert(resolve_of(fv, ms[k - 1], fv[source as int]).contains(x as usize));
                }
                if x != source && (exists|k2: int| 0 <= k2 < k && #[trigger] resolve_of(fv, ms[k2], fv[source as int]).contains(x as usize)) {
                    let k2 = choose|k2: int| 0 <= k2 < k && #[trigger] resolve_of(fv, ms[k2], fv[source as int]).contains(x as usize);
                    if k2 < k - 1 {
                        assert(hit0[x]);
                    }
                }
            }
        }
        let mut x: usize = 0;
        while x < n
            invariant
                x <= n,
                source < mentions.len(),
                n == files.len(),
                hit@.len() == n,
                counts@.len() == n,
                forall|y: int| 0 <= y < n ==> #[trigger] hit@[y] == (y != source && exists|k2: int|
                    0 <= k2 < imported.len() && #[trigger] resolve_of(fv, ms[k2], fv[source as int]).contains(y as usize)),
                forall|y: int| 0 <= y < x ==> #[trigger] counts@[y] == referrers(fv, mv, y, source + 1),
                forall|y: int| x <= y < n ==> #[trigger] counts@[y] == referrers(fv, mv, y, source as int),
                forall|y: int| 0 <= y < n ==> #[trigger] counts@[y] <= source + 1,
                forall|y: int| x <= y < n ==> #[trigger] counts@[y] <= source,
                mv.len() == mentions.len(),
                ms == mv[source as int],
                ms.len() == imported.len(),
            decreases n - x,
        {
            assert(refers(fv, mv, source as int, x as int) == hit@[x as int]);
            if hit[x] {
                let c = counts[x];
                counts.set(x, c + 1);
            }
            x = x + 1;
        }
        source = source + 1;
    }
    counts
}


// ---------------------------------------------------------------------------
// Laws
// ---------------------------------------------------------------------------

/// No file refers to itself, so a file's count is at most the number of
/// other files whose imports were read.
pub proof fn law_a_file_never_counts_itself(
    files: Seq<Seq<char>>,
    mentions: Seq<Seq<Seq<Seq<char>>>>,
    t: int,
    n: int,
)
    requires
        0 <= t < n,
    ensures
        !refers(files, mentions, t, t),
        referrers(files, mentions, t, n) <= n - 1,
    decreases n,
{
    if n - 1 > t {
        law_a_file_never_counts_itself(files, mentions, t, n - 1);
    } else {
        lemma_referrers_at_most(files, mentions, t, n - 1);
    }
}

proof fn lemma_referrers_at_most(files: Seq<Seq<char>>, mentions: Seq<Seq<Seq<Seq<char>>>>, t: int, n: int)
    requires
        0 <= n,
    ensures
        referrers(files, mentions, t, n) <= n,
    decreases n,
{
    if n > 0 {
        lemma_referrers_at_most(files, mentions, t, n - 1);
    }
}

/// Writing an import a second time changes no file's count: one file
/// leaning on another counts once, however often it says so.
pub proof fn law_repeating_an_import_changes_nothing(
    files: Seq<Seq<char>>,
    mentions: Seq<Seq<Seq<Seq<char>>>>,
    s: int,
    k: int,
    t: int,
    n: int,
)
    requires
        0 <= s < mentions.len(),
        0 <= k < mentions[s].len(),
        n <= mentions.len(),
    ensures
        referrers(files, mentions.update(s, mentions[s].push(mentions[s][k])), t, n)
            == referrers(files, mentions, t, n),
    decreases n,
{
    let again = mentions.update(s, mentions[s].push(mentions[s][k]));
    if n > 0 {
        law_repeating_an_import_changes_nothing(files, mentions, s, k, t, n - 1);
        let q = n - 1;
        if q == s {
            let longer = mentions[s].push(mentions[s][k]);
            assert(again[q] == longer);
            if refers(files, again, q, t) {
                let k2 = choose|k2: int|
                    0 <= k2 < again[q].len() && #[trigger] resolve_of(files, again[q][k2], files[q]).contains(t as usize);
                if k2 == mentions[s].len() {
                    assert(resolve_of(files, mentions[q][k], files[q]).contains(t as usize));
                } else {
                    assert(resolve_of(files, mentions[q][k2], files[q]).contains(t as usize));
                }
            }
            if refers(files, mentions, q, t) {
                let k2 = choose|k2: int|
                    0 <= k2 < mentions[q].len() && #[trigger] resolve_of(files, mentions[q][k2], files[q]).contains(t as usize);
                assert(again[q][k2] == mentions[q][k2]);
                assert(resolve_of(files, again[q][k2], files[q]).contains(t as usize));
            }
        } else {
            assert(again[q] == mentions[q]);
        }
    }
}

proof fn lemma_search_start_tied(files: Seq<Seq<char>>, spec: Seq<Seq<char>>, length: int, start: int)
    ensures
        search_start(files, spec, length, start).len() <= MAX_TIED,
    decreases spec.len() - start,
{
    if !(start < 0 || length < 1 || start + length > spec.len()) {
        lemma_search_start_tied(files, spec, length, start + 1);
    }
}

proof fn lemma_search_len_tied(files: Seq<Seq<char>>, spec: Seq<Seq<char>>, length: int)
    ensures
        search_len(files, spec, length).len() <= MAX_TIED,
    decreases length,
{
    if length >= 1 {
        lemma_search_start_tied(files, spec, length, 0);
        lemma_search_len_tied(files, spec, length - 1);
    }
}

/// One import credits at most four files: a name more files answer to is
/// noise and credits none.
pub proof fn law_an_import_credits_at_most_four_files(
    files: Seq<Seq<char>>,
    spec: Seq<Seq<char>>,
    from: Seq<char>,
)
    ensures
        resolve_of(files, spec, from).len() <= MAX_TIED,
{
    if spec.len() > 0 && !(spec[0] == seq!['.'] || spec[0] == seq!['.', '.']) {
        lemma_search_len_tied(files, spec, spec.len() as int);
    }
}

} // verus!
