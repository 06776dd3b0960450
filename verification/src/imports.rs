//! Reading import lines: which lines bring another file in, what target each
//! names, and the path segments that target spells.

use vstd::prelude::*;
use crate::facts::lines_exec;
use crate::paths::last_dot;
use crate::text::{
    chars_of, contains_seq, contains_str, dashed, dashed_exec, eq_chars, eq_str, has_char,
    has_char_exec, is_ws_exec, lines, lower, lower_exec, pieces, slice_chars, split, split_exec,
    starts_with, starts_with_str, string_of, trim, trim_end_char, trim_end_char_exec, trim_exec,
    trim_start, trim_start_exec, utf8_len, utf8_width, Sep,
};

verus! {

/// The characters of each vector, in order.
pub open spec fn cv(v: Seq<Vec<char>>) -> Seq<Seq<char>> {
    v.map_values(|c: Vec<char>| c@)
}

/// The characters of each string, in order.
pub open spec fn sv(v: Seq<String>) -> Seq<Seq<char>> {
    v.map_values(|s: String| s@)
}

/// Whether a (left-trimmed) line brings another file in.
pub open spec fn is_import(t: Seq<char>) -> bool {
    ||| starts_with(t, "import "@)
    ||| starts_with(t, "import("@)
    ||| starts_with(t, "from "@)
    ||| starts_with(t, "use "@)
    ||| starts_with(t, "#include"@)
    ||| starts_with(t, "include "@)
    ||| starts_with(t, "require "@)
    ||| starts_with(t, "@import"@)
    ||| starts_with(t, "export "@)
    ||| starts_with(t, "using "@)
    ||| starts_with(t, "extern crate"@)
    ||| starts_with(t, "source "@)
    ||| starts_with(t, "load("@)
    ||| starts_with(t, "mod "@)
    ||| starts_with(t, "pub use "@)
    ||| starts_with(t, "pub mod "@)
    ||| contains_seq(t, "require("@)
    ||| contains_seq(t, "import("@)
    ||| contains_seq(t, "importlib"@)
    ||| contains_seq(t, "from importlib"@)
}

/// Whether a line brings another file in: it opens with an import keyword of
/// some language, or calls a loader anywhere on it.
pub fn is_import_line(trimmed: &str) -> (r: bool)
    ensures
        r == is_import(trimmed@),
{
    let t = chars_of(trimmed);
    is_import_chars(&t)
}

fn is_import_chars(t: &[char]) -> (r: bool)
    ensures
        r == is_import(t@),
{
    starts_with_str(t, "import ") || starts_with_str(t, "import(") || starts_with_str(t, "from ")
        || starts_with_str(t, "use ") || starts_with_str(t, "#include") || starts_with_str(
        t,
        "include ",
    ) || starts_with_str(t, "require ") || starts_with_str(t, "@import") || starts_with_str(
        t,
        "export ",
    ) || starts_with_str(t, "using ") || starts_with_str(t, "extern crate") || starts_with_str(
        t,
        "source ",
    ) || starts_with_str(t, "load(") || starts_with_str(t, "mod ") || starts_with_str(
        t,
        "pub use ",
    ) || starts_with_str(t, "pub mod ") || contains_str(t, "require(") || contains_str(
        t,
        "import(",
    ) || contains_str(t, "importlib") || contains_str(t, "from importlib")
}

// ---------------------------------------------------------------------------
// Segments of a target
// ---------------------------------------------------------------------------

/// The leading `./` and `../` steps of a relative target, and what follows.
pub open spec fn lead_split(s: Seq<char>) -> (Seq<Seq<char>>, Seq<char>)
    decreases s.len(),
{
    if starts_with(s, seq!['.', '.', '/']) {
        let (lead, rest) = lead_split(s.skip(3));
        (seq![seq!['.', '.']] + lead, rest)
    } else if starts_with(s, seq!['.', '/']) {
        let (lead, rest) = lead_split(s.skip(2));
        (seq![seq!['.']] + lead, rest)
    } else {
        (Seq::<Seq<char>>::empty(), s)
    }
}

/// A segment that says where to start rather than what to reach.
pub open spec fn is_anchor(s: Seq<char>) -> bool {
    s == "crate"@ || s == "self"@ || s == "super"@
}

/// A segment as it is compared: ASCII lowercase, `_` written as `-`.
pub open spec fn normalized(s: Seq<char>) -> Seq<char> {
    dashed(lower(s))
}

/// A target with the extension it is spelled with on disk taken off, when it
/// is a path and the extension is short.
pub open spec fn without_extension(rest: Seq<char>, looks_like_path: bool) -> Seq<char> {
    let d = last_dot(rest);
    if looks_like_path && d > 0 && utf8_len(rest.skip(d + 1)) <= 4 {
        rest.take(d)
    } else {
        rest
    }
}

/// The path segments an import target names.
///
/// Trailing `;` and surrounding whitespace go; leading `./` and `../` stay as
/// `.` and `..`; a short trailing extension goes when the target is a path;
/// the rest is cut at `/`, `\`, `.` and `:`, each piece normalised, and
/// `crate`, `self` and `super` dropped.
pub open spec fn segments_of(target: Seq<char>) -> Seq<Seq<char>> {
    let s = trim(trim_end_char(target, ';'));
    let (lead, rest) = lead_split(s);
    let looks = lead.len() > 0 || has_char(rest, '/') || has_char(rest, '\\');
    let stem = without_extension(rest, looks);
    lead + pieces(stem, Sep::PathPunct).map_values(|p: Seq<char>| normalized(p)).filter(
        |p: Seq<char>| !is_anchor(p),
    )
}

/// Whether `s` takes at most `k` bytes in UTF-8.
pub fn utf8_len_at_most(s: &[char], k: usize) -> (r: bool)
    ensures
        r == (utf8_len(s@) <= k),
{
    let mut total: usize = 0;
    let mut i: usize = 0;
    while i < s.len()
        invariant
            i <= s.len(),
            total == utf8_len(s@.take(i as int)),
            total <= k,
        decreases s.len() - i,
    {
        let c = s[i];
        let w: usize = if c <= '\u{7f}' {
            1
        } else if c <= '\u{7ff}' {
            2
        } else if c <= '\u{ffff}' {
            3
        } else {
            4
        };
        assert(s@.take(i + 1).drop_last() =~= s@.take(i as int));
        assert(w == utf8_width(s@[i as int]));
        if w > k - total {
            proof {
                lemma_utf8_len_prefix(s@, i + 1);
            }
            return false;
        }
        total = total + w;
        i = i + 1;
    }
    assert(s@.take(s.len() as int) =~= s@);
    true
}

proof fn lemma_utf8_len_prefix(s: Seq<char>, i: int)
    requires
        0 <= i <= s.len(),
    ensures
        utf8_len(s.take(i)) <= utf8_len(s),
    decreases s.len() - i,
{
    if i < s.len() {
        lemma_utf8_len_prefix(s, i + 1);
        assert(s.take(i + 1).drop_last() =~= s.take(i));
    } else {
        assert(s.take(i) =~= s);
    }
}

fn is_anchor_exec(p: &[char]) -> (r: bool)
    ensures
        r == is_anchor(p@),
{
    eq_str(p, "crate") || eq_str(p, "self") || eq_str(p, "super")
}

/// An import target split into the path segments it names.
pub fn split_specifier(specifier: &str) -> (r: Vec<String>)
    ensures
        sv(r@) == segments_of(specifier@),
{
    let t = chars_of(specifier);
    let segs = segments_exec(&t);
    strings_of(&segs)
}

/// The leading `./` and `../` steps of `s`, and where what follows begins.
fn lead_exec(s: &[char]) -> (r: (Vec<Vec<char>>, usize))
    ensures
        r.1 <= s.len(),
        lead_split(s@) == (cv(r.0@), s@.skip(r.1 as int)),
{
    let mut lead: Vec<Vec<char>> = Vec::new();
    let mut i: usize = 0;
    assert(s@.skip(0) =~= s@);
    loop
        invariant
            i <= s.len(),
            lead_split(s@) == (cv(lead@) + lead_split(s@.skip(i as int)).0, lead_split(
                s@.skip(i as int),
            ).1),
        ensures
            i <= s.len(),
            lead_split(s@) == (cv(lead@) + lead_split(s@.skip(i as int)).0, lead_split(
                s@.skip(i as int),
            ).1),
            lead_split(s@.skip(i as int)) == (Seq::<Seq<char>>::empty(), s@.skip(i as int)),
        decreases s.len() - i,
    {
        let ghost rest = s@.skip(i as int);
        let up = s.len() - i >= 3 && s[i] == '.' && s[i + 1] == '.' && s[i + 2] == '/';
        let here = !up && s.len() - i >= 2 && s[i] == '.' && s[i + 1] == '/';
        proof {
            if s.len() - i >= 3 {
                assert(rest.subrange(0, 3) =~= seq![s@[i as int], s@[i + 1], s@[i + 2]]);
            }
            if s.len() - i >= 2 {
                assert(rest.subrange(0, 2) =~= seq![s@[i as int], s@[i + 1]]);
            }
            assert(up == starts_with(rest, seq!['.', '.', '/']));
            assert(here == (!up && starts_with(rest, seq!['.', '/'])));
        }
        let ghost before = cv(lead@);
        if up {
            let mut step: Vec<char> = Vec::new();
            step.push('.');
            step.push('.');
            assert(step@ =~= seq!['.', '.']);
            lead.push(step);
            assert(rest.skip(3) =~= s@.skip(i + 3));
            assert(cv(lead@) =~= before + seq![seq!['.', '.']]);
            i = i + 3;
        } else if here {
            let mut step: Vec<char> = Vec::new();
            step.push('.');
            assert(step@ =~= seq!['.']);
            lead.push(step);
            assert(rest.skip(2) =~= s@.skip(i + 2));
            assert(cv(lead@) =~= before + seq![seq!['.']]);
            i = i + 2;
        } else {
            break ;
        }
    }
    assert(cv(lead@) + Seq::<Seq<char>>::empty() =~= cv(lead@));
    (lead, i)
}

fn segments_exec(target: &[char]) -> (r: Vec<Vec<char>>)
    ensures
        cv(r@) == segments_of(target@),
{
    let s = trim_exec(&trim_end_char_exec(target, ';'));
    let (lead, i) = lead_exec(&s);
    let rest = slice_chars(&s, i, s.len());
    assert(rest@ =~= s@.skip(i as int));
    let looks = lead.len() > 0 || has_char_exec(&rest, '/') || has_char_exec(&rest, '\\');
    proof {
        crate::paths::lemma_last_dot_bounds(rest@);
    }
    let stem = match crate::paths::last_dot_exec(&rest) {
        Some(d) => {
            if looks && d > 0 && utf8_len_at_most(&slice_chars(&rest, d + 1, rest.len()), 4) {
                slice_chars(&rest, 0, d)
            } else {
                slice_chars(&rest, 0, rest.len())
            }
        },
        None => slice_chars(&rest, 0, rest.len()),
    };
    assert(rest@.subrange(0, rest.len() as int) =~= rest@);
    assert(stem@ == without_extension(rest@, looks));
    let parts = pieces_exec(&stem, Sep::PathPunct);
    let ghost normal = cv(parts@).map_values(|p: Seq<char>| normalized(p));
    let mut r = lead;
    let ghost lead_v = cv(r@);
    let mut k: usize = 0;
    while k < parts.len()
        invariant
            k <= parts.len(),
            normal == cv(parts@).map_values(|p: Seq<char>| normalized(p)),
            cv(r@) == lead_v + normal.take(k as int).filter(|p: Seq<char>| !is_anchor(p)),
        decreases parts.len() - k,
    {
        let n = dashed_exec(&lower_exec(&parts[k]));
        assert(n@ == normal[k as int]);
        let ghost before = cv(r@);
        assert(normal.take(k + 1).drop_last() =~= normal.take(k as int));
        reveal(Seq::filter);
        if !is_anchor_exec(&n) {
            r.push(n);
            assert(cv(r@) =~= before.push(normal[k as int]));
            assert(lead_v + normal.take(k + 1).filter(|p: Seq<char>| !is_anchor(p)) =~= (lead_v
                + normal.take(k as int).filter(|p: Seq<char>| !is_anchor(p))).push(
                normal[k as int],
            ));
        } else {
            assert(cv(r@) =~= before);
        }
        k = k + 1;
    }
    assert(normal.take(parts.len() as int) =~= normal);
    r
}

// ---------------------------------------------------------------------------
// Targets on a line
// ---------------------------------------------------------------------------

/// A character that opens a quoted target.
pub open spec fn is_opener(c: char) -> bool {
    c == '"' || c == '\'' || c == '<'
}

/// The character that closes what `open` opened.
pub open spec fn closer_of(open: char) -> char {
    if open == '"' {
        '"'
    } else if open == '\'' {
        '\''
    } else {
        '>'
    }
}

/// The first position in `s` holding an opener, or `-1`.
pub open spec fn first_opener(s: Seq<char>) -> int
    decreases s.len(),
{
    if s.len() == 0 {
        -1
    } else if is_opener(s[0]) {
        0
    } else {
        let rest = first_opener(s.drop_first());
        if rest < 0 {
            -1
        } else {
            rest + 1
        }
    }
}

/// The first position in `s` holding `c`, or `-1`.
pub open spec fn first_of(s: Seq<char>, c: char) -> int
    decreases s.len(),
{
    if s.len() == 0 {
        -1
    } else if s[0] == c {
        0
    } else {
        let rest = first_of(s.drop_first(), c);
        if rest < 0 {
            -1
        } else {
            rest + 1
        }
    }
}

/// Whether angle-bracketed targets count on this line: only an include line
/// writes its target that way.
pub open spec fn angle_counts(line: Seq<char>) -> bool {
    starts_with(line, "#include"@) || starts_with(line, "include "@)
}

/// The quoted targets in `rest`, read left to right; `line` is the whole line.
pub open spec fn quoted_targets(line: Seq<char>, rest: Seq<char>) -> Seq<Seq<char>>
    decreases rest.len(),
{
    let open = first_opener(rest);
    if open < 0 || open >= rest.len() {
        Seq::<Seq<char>>::empty()
    } else {
        let closer = closer_of(rest[open]);
        let after = rest.skip(open + 1);
        let close = first_of(after, closer);
        if close < 0 || close >= after.len() {
            Seq::<Seq<char>>::empty()
        } else {
            let found = after.take(close);
            let more = quoted_targets(line, after.skip(close + 1));
            if closer != '>' || angle_counts(line) {
                seq![found] + more
            } else {
                more
            }
        }
    }
}

/// A keyword that may stand before an import's bare path.
pub open spec fn is_import_keyword(w: Seq<char>) -> bool {
    w == "import"@ || w == "from"@ || w == "use"@ || w == "pub"@ || w == "mod"@ || w == "using"@
        || w == "extern"@ || w == "crate"@ || w == "@import"@
}

/// Unicode `Alphabetic` or `Numeric`, which is what `char::is_alphanumeric`
/// reports.
pub uninterp spec fn alphanumeric(c: char) -> bool;

/// `char::is_alphanumeric`: whether `c` is a Unicode letter or number.
/// Among ASCII characters, as std documents, exactly the letters and digits
/// are; beyond ASCII the result is left to the name.
#[verifier::external_body]
fn is_alphanumeric(c: char) -> (r: bool)
    ensures
        r == alphanumeric(c),
        (c as u32) < 128 ==> (r <==> (('a' <= c && c <= 'z') || ('A' <= c && c <= 'Z') || ('0' <= c && c <= '9'))),
{
    c.is_alphanumeric()
}

/// A character a bare import path may be written with.
pub open spec fn is_path_char(c: char) -> bool {
    alphanumeric(c) || c == '_' || c == '-' || c == '.' || c == '/' || c == '\\' || c == ':'
}

/// The longest prefix of `s` made of path characters.
pub open spec fn path_run(s: Seq<char>) -> Seq<char>
    decreases s.len(),
{
    if s.len() > 0 && is_path_char(s[0]) {
        seq![s[0]] + path_run(s.drop_first())
    } else {
        Seq::<char>::empty()
    }
}

/// The first word of `ws` that is not an import keyword, or nothing.
pub open spec fn first_non_keyword(ws: Seq<Seq<char>>) -> Seq<char>
    decreases ws.len(),
{
    if ws.len() == 0 {
        Seq::<char>::empty()
    } else if !is_import_keyword(ws[0]) {
        ws[0]
    } else {
        first_non_keyword(ws.drop_first())
    }
}

/// The bare path written after an import's keywords, if there is one.
pub open spec fn bare_targets(line: Seq<char>) -> Seq<Seq<char>> {
    let path = path_run(first_non_keyword(pieces(line, Sep::Space)));
    if path.len() == 0 {
        Seq::<Seq<char>>::empty()
    } else {
        seq![path]
    }
}

/// The import targets written on one line: every quoted target where the
/// line has any, and otherwise the bare path after its keywords.
pub open spec fn targets_of(line: Seq<char>) -> Seq<Seq<char>> {
    let quoted = quoted_targets(line, line);
    if quoted.len() > 0 {
        quoted
    } else {
        bare_targets(line)
    }
}

proof fn lemma_first_opener(s: Seq<char>)
    ensures
        -1 <= first_opener(s) < s.len(),
        first_opener(s) >= 0 ==> is_opener(s[first_opener(s)]),
        forall|j: int| 0 <= j < s.len() && (first_opener(s) < 0 || j < first_opener(s))
            ==> !is_opener(#[trigger] s[j]),
    decreases s.len(),
{
    if s.len() > 0 && !is_opener(s[0]) {
        lemma_first_opener(s.drop_first());
        assert forall|j: int|
            0 <= j < s.len() && (first_opener(s) < 0 || j < first_opener(s)) implies !is_opener(
            #[trigger] s[j],
        ) by {
            if j > 0 {
                assert(s[j] == s.drop_first()[j - 1]);
            }
        }
    }
}

proof fn lemma_first_of(s: Seq<char>, c: char)
    ensures
        -1 <= first_of(s, c) < s.len(),
        first_of(s, c) >= 0 ==> s[first_of(s, c)] == c,
        forall|j: int| 0 <= j < s.len() && (first_of(s, c) < 0 || j < first_of(s, c)) ==> #[trigger] s[j]
            != c,
    decreases s.len(),
{
    if s.len() > 0 && s[0] != c {
        lemma_first_of(s.drop_first(), c);
        assert forall|j: int|
            0 <= j < s.len() && (first_of(s, c) < 0 || j < first_of(s, c)) implies #[trigger] s[j]
            != c by {
            if j > 0 {
                assert(s[j] == s.drop_first()[j - 1]);
            }
        }
    }
}

/// The first position at or after `from` holding an opener.
fn find_opener(s: &[char], from: usize) -> (r: Option<usize>)
    requires
        from <= s.len(),
    ensures
        first_opener(s@.skip(from as int)) < 0 ==> r is None,
        first_opener(s@.skip(from as int)) >= 0 ==> r == Some((from + first_opener(s@.skip(from as int))) as usize),
{
    proof {
        lemma_first_opener(s@.skip(from as int));
    }
    let mut i = from;
    while i < s.len()
        invariant
            from <= i <= s.len(),
            forall|j: int| from <= j < i ==> !is_opener(#[trigger] s@[j]),
        decreases s.len() - i,
    {
        let c = s[i];
        if c == '"' || c == '\'' || c == '<' {
            proof {
                let rest = s@.skip(from as int);
                lemma_first_opener(rest);
                assert(rest[i - from] == s@[i as int]);
                assert forall|j: int| 0 <= j < i - from implies !is_opener(#[trigger] rest[j]) by {
                    assert(rest[j] == s@[from + j]);
                }
                if first_opener(rest) >= 0 && first_opener(rest) < i - from {
                    assert(rest[first_opener(rest)] == s@[from + first_opener(rest)]);
                }
            }
            return Some(i);
        }
        i = i + 1;
    }
    proof {
        let rest = s@.skip(from as int);
        lemma_first_opener(rest);
        if first_opener(rest) >= 0 {
            assert(rest[first_opener(rest)] == s@[from + first_opener(rest)]);
        }
    }
    None
}

/// The first position at or after `from` holding `c`.
fn find_char(s: &[char], c: char, from: usize) -> (r: Option<usize>)
    requires
        from <= s.len(),
    ensures
        first_of(s@.skip(from as int), c) < 0 ==> r is None,
        first_of(s@.skip(from as int), c) >= 0 ==> r == Some((from + first_of(s@.skip(from as int), c)) as usize),
{
    proof {
        lemma_first_of(s@.skip(from as int), c);
    }
    let mut i = from;
    while i < s.len()
        invariant
            from <= i <= s.len(),
            forall|j: int| from <= j < i ==> #[trigger] s@[j] != c,
        decreases s.len() - i,
    {
        if s[i] == c {
            proof {
                let rest = s@.skip(from as int);
                lemma_first_of(rest, c);
                assert(rest[i - from] == s@[i as int]);
                assert forall|j: int| 0 <= j < i - from implies #[trigger] rest[j] != c by {
                    assert(rest[j] == s@[from + j]);
                }
                if first_of(rest, c) >= 0 && first_of(rest, c) < i - from {
                    assert(rest[first_of(rest, c)] == s@[from + first_of(rest, c)]);
                }
            }
            return Some(i);
        }
        i = i + 1;
    }
    proof {
        let rest = s@.skip(from as int);
        lemma_first_of(rest, c);
        if first_of(rest, c) >= 0 {
            assert(rest[first_of(rest, c)] == s@[from + first_of(rest, c)]);
        }
    }
    None
}

fn quoted_targets_exec(line: &[char]) -> (r: Vec<Vec<char>>)
    ensures
        cv(r@) == quoted_targets(line@, line@),
{
    let angle = starts_with_str(line, "#include") || starts_with_str(line, "include ");
    let mut found: Vec<Vec<char>> = Vec::new();
    let mut at: usize = 0;
    assert(line@.skip(0) =~= line@);
    loop
        invariant
            at <= line.len(),
            angle == angle_counts(line@),
            cv(found@) + quoted_targets(line@, line@.skip(at as int)) == quoted_targets(line@, line@),
        decreases line.len() - at,
    {
        let ghost rest = line@.skip(at as int);
        proof {
            lemma_first_opener(rest);
        }
        let open = match find_opener(line, at) {
            Some(o) => o,
            None => {
                assert(cv(found@) + Seq::<Seq<char>>::empty() =~= cv(found@));
                return found;
            },
        };
        let o = open - at;
        let closer = if line[open] == '"' {
            '"'
        } else if line[open] == '\'' {
            '\''
        } else {
            '>'
        };
        assert(rest[o as int] == line@[open as int]);
        let ghost after = rest.skip(o + 1);
        assert(after =~= line@.skip(open + 1));
        proof {
            lemma_first_of(after, closer);
        }
        let close = match find_char(line, closer, open + 1) {
            Some(c) => c,
            None => {
                assert(cv(found@) + Seq::<Seq<char>>::empty() =~= cv(found@));
                return found;
            },
        };
        let k = close - (open + 1);
        assert(after.take(k as int) =~= line@.subrange(open + 1, close as int));
        assert(after.skip(k + 1) =~= line@.skip(close + 1));
        let ghost before = cv(found@);
        if closer != '>' || angle {
            let target = slice_chars(line, open + 1, close);
            found.push(target);
            assert(cv(found@) =~= before.push(after.take(k as int)));
            assert(before + (seq![after.take(k as int)] + quoted_targets(line@, line@.skip(close + 1)))
                =~= cv(found@) + quoted_targets(line@, line@.skip(close + 1)));
        }
        at = close + 1;
    }
}

fn is_import_keyword_exec(w: &[char]) -> (r: bool)
    ensures
        r == is_import_keyword(w@),
{
    eq_str(w, "import") || eq_str(w, "from") || eq_str(w, "use") || eq_str(w, "pub") || eq_str(
        w,
        "mod",
    ) || eq_str(w, "using") || eq_str(w, "extern") || eq_str(w, "crate") || eq_str(w, "@import")
}

/// The non-empty pieces of a split, in order.
pub fn pieces_exec(s: &[char], sep: Sep) -> (r: Vec<Vec<char>>)
    ensures
        cv(r@) == pieces(s@, sep),
{
    let parts = split_exec(s, sep);
    let ghost all = cv(parts@);
    let mut r: Vec<Vec<char>> = Vec::new();
    let mut i: usize = 0;
    while i < parts.len()
        invariant
            i <= parts.len(),
            all == cv(parts@),
            cv(r@) == all.take(i as int).filter(|piece: Seq<char>| piece.len() > 0),
        decreases parts.len() - i,
    {
        let piece = &parts[i];
        let ghost before = cv(r@);
        assert(all.take(i + 1).drop_last() =~= all.take(i as int));
        reveal(Seq::filter);
        if piece.len() > 0 {
            r.push(slice_chars(piece, 0, piece.len()));
            assert(piece@.subrange(0, piece.len() as int) =~= piece@);
            assert(cv(r@) =~= before.push(all[i as int]));
        } else {
            assert(cv(r@) =~= before);
        }
        i = i + 1;
    }
    assert(all.take(parts.len() as int) =~= all);
    r
}

fn path_run_exec(w: &[char]) -> (r: Vec<char>)
    ensures
        r@ == path_run(w@),
{
    let mut i: usize = 0;
    let ghost mut acc: Seq<char> = Seq::<char>::empty();
    assert(w@.skip(0) =~= w@);
    while i < w.len() && (is_alphanumeric(w[i]) || w[i] == '_' || w[i] == '-' || w[i] == '.'
        || w[i] == '/' || w[i] == '\\' || w[i] == ':')
        invariant
            i <= w.len(),
            forall|j: int| 0 <= j < i ==> is_path_char(#[trigger] w@[j]),
            path_run(w@) == w@.take(i as int) + path_run(w@.skip(i as int)),
        decreases w.len() - i,
    {
        assert(w@.skip(i as int).drop_first() =~= w@.skip(i + 1));
        assert(w@.take(i + 1) =~= w@.take(i as int) + seq![w@[i as int]]);
        assert(w@.take(i as int) + path_run(w@.skip(i as int)) =~= w@.take(i + 1) + path_run(
            w@.skip(i + 1),
        ));
        i = i + 1;
    }
    assert(path_run(w@.skip(i as int)) =~= Seq::<char>::empty());
    assert(w@.take(i as int) + Seq::<char>::empty() =~= w@.take(i as int));
    slice_chars(w, 0, i)
}

fn bare_targets_exec(line: &[char]) -> (r: Vec<Vec<char>>)
    ensures
        cv(r@) == bare_targets(line@),
{
    let words = pieces_exec(line, Sep::Space);
    let ghost ws = cv(words@);
    let mut i: usize = 0;
    assert(ws.skip(0) =~= ws);
    while i < words.len() && is_import_keyword_exec(&words[i])
        invariant
            i <= words.len(),
            ws == cv(words@),
            first_non_keyword(ws) == first_non_keyword(ws.skip(i as int)),
        decreases words.len() - i,
    {
        assert(ws.skip(i as int).drop_first() =~= ws.skip(i + 1));
        i = i + 1;
    }
    let word = if i < words.len() {
        assert(ws.skip(i as int)[0] == words@[i as int]@);
        slice_chars(&words[i], 0, words[i].len())
    } else {
        Vec::new()
    };
    proof {
        if i < words.len() {
            assert(words@[i as int]@.subrange(0, words@[i as int]@.len() as int) =~= words@[i as int]@);
        }
    }
    let path = path_run_exec(&word);
    let mut r: Vec<Vec<char>> = Vec::new();
    if path.len() > 0 {
        r.push(path);
        assert(cv(r@) =~= seq![path@]);
    } else {
        assert(cv(r@) =~= Seq::<Seq<char>>::empty());
    }
    r
}

/// The import targets written on one line.
///
/// A quoted or angle-bracketed target is unambiguous, so where a line has one
/// it is taken as written (angle brackets only on an include line).
/// Otherwise the target is the first path-shaped run after the keywords.
pub fn specifiers(trimmed: &str) -> (r: Vec<String>)
    ensures
        sv(r@) == targets_of(trimmed@),
{
    let t = chars_of(trimmed);
    let found = targets_exec(&t);
    strings_of(&found)
}

fn targets_exec(t: &[char]) -> (r: Vec<Vec<char>>)
    ensures
        cv(r@) == targets_of(t@),
{
    let quoted = quoted_targets_exec(t);
    if quoted.len() > 0 {
        quoted
    } else {
        bare_targets_exec(t)
    }
}

/// Each character vector as a `String`.
pub fn strings_of(v: &Vec<Vec<char>>) -> (r: Vec<String>)
    ensures
        sv(r@) == cv(v@),
{
    let mut r: Vec<String> = Vec::new();
    let mut i: usize = 0;
    while i < v.len()
        invariant
            i <= v.len(),
            r@.len() == i,
            forall|j: int| 0 <= j < i ==> #[trigger] r@[j]@ == v@[j]@,
        decreases v.len() - i,
    {
        r.push(string_of(&v[i]));
        i = i + 1;
    }
    assert(sv(r@) =~= cv(v@));
    r
}

/// Each string as a character vector.
pub fn char_vecs_of(v: &Vec<String>) -> (r: Vec<Vec<char>>)
    ensures
        cv(r@) == sv(v@),
{
    let mut r: Vec<Vec<char>> = Vec::new();
    let mut i: usize = 0;
    while i < v.len()
        invariant
            i <= v.len(),
            r@.len() == i,
            forall|j: int| 0 <= j < i ==> #[trigger] r@[j]@ == v@[j]@,
        decreases v.len() - i,
    {
        r.push(chars_of(v[i].as_str()));
        i = i + 1;
    }
    assert(sv(v@) =~= cv(r@));
    r
}

// ---------------------------------------------------------------------------
// Every target in a file
// ---------------------------------------------------------------------------

/// The segments of each segment list, in order.
pub open spec fn ccv(v: Seq<Vec<Vec<char>>>) -> Seq<Seq<Seq<char>>> {
    v.map_values(|x: Vec<Vec<char>>| cv(x@))
}

/// The segments of each list of strings, in order.
pub open spec fn ssv(v: Seq<Vec<String>>) -> Seq<Seq<Seq<char>>> {
    v.map_values(|x: Vec<String>| sv(x@))
}

/// The targets one line names, as segments; nothing unless it is an import
/// line once its leading whitespace is gone.
pub open spec fn line_targets(line: Seq<char>) -> Seq<Seq<Seq<char>>> {
    let t = trim_start(line);
    if is_import(t) {
        targets_of(t).map_values(|target: Seq<char>| segments_of(target))
    } else {
        Seq::<Seq<Seq<char>>>::empty()
    }
}

/// The targets of every line, in order.
pub open spec fn all_targets(ls: Seq<Seq<char>>) -> Seq<Seq<Seq<char>>>
    decreases ls.len(),
{
    if ls.len() == 0 {
        Seq::<Seq<Seq<char>>>::empty()
    } else {
        all_targets(ls.drop_last()) + line_targets(ls.last())
    }
}

/// The non-empty entries of `xs`, each kept only where it first appears.
pub open spec fn first_seen(xs: Seq<Seq<Seq<char>>>) -> Seq<Seq<Seq<char>>>
    decreases xs.len(),
{
    if xs.len() == 0 {
        Seq::<Seq<Seq<char>>>::empty()
    } else {
        let kept = first_seen(xs.drop_last());
        let x = xs.last();
        if x.len() == 0 || kept.contains(x) {
            kept
        } else {
            kept.push(x)
        }
    }
}

/// The paths a file's text imports, each once, in the order first written.
pub open spec fn imports_of(text: Seq<char>) -> Seq<Seq<Seq<char>>> {
    first_seen(all_targets(lines(text)))
}

/// Whether two segment lists are equal.
pub fn eq_segments(a: &Vec<Vec<char>>, b: &Vec<Vec<char>>) -> (r: bool)
    ensures
        r == (cv(a@) == cv(b@)),
{
    if a.len() != b.len() {
        assert(cv(a@).len() != cv(b@).len());
        return false;
    }
    let mut i: usize = 0;
    while i < a.len()
        invariant
            i <= a.len(),
            a.len() == b.len(),
            forall|j: int| 0 <= j < i ==> a@[j]@ == b@[j]@,
        decreases a.len() - i,
    {
        if !eq_chars(&a[i], &b[i]) {
            assert(cv(a@)[i as int] != cv(b@)[i as int]);
            return false;
        }
        i = i + 1;
    }
    assert(cv(a@) =~= cv(b@));
    true
}

fn contains_segments(list: &Vec<Vec<Vec<char>>>, x: &Vec<Vec<char>>) -> (r: bool)
    ensures
        r == ccv(list@).contains(cv(x@)),
{
    let mut i: usize = 0;
    while i < list.len()
        invariant
            i <= list.len(),
            forall|j: int| 0 <= j < i ==> cv(list@[j]@) != cv(x@),
        decreases list.len() - i,
    {
        if eq_segments(&list[i], x) {
            assert(ccv(list@)[i as int] == cv(x@));
            return true;
        }
        i = i + 1;
    }
    proof {
        if ccv(list@).contains(cv(x@)) {
            let j = choose|j: int| 0 <= j < ccv(list@).len() && ccv(list@)[j] == cv(x@);
            assert(cv(list@[j]@) == cv(x@));
        }
    }
    false
}

/// The paths an import-like line in this text names, each once, in the
/// order they are first written; only the target of each import is read,
/// never the rest of the line.
pub fn imported_paths(text: &str) -> (r: Vec<Vec<String>>)
    ensures
        ssv(r@) == imports_of(text@),
{
    let t = chars_of(text);
    let found = imported_paths_chars(&t);
    let mut r: Vec<Vec<String>> = Vec::new();
    let mut i: usize = 0;
    while i < found.len()
        invariant
            i <= found.len(),
            r@.len() == i,
            forall|j: int| 0 <= j < i ==> #[trigger] sv(r@[j]@) == cv(found@[j]@),
        decreases found.len() - i,
    {
        r.push(strings_of(&found[i]));
        i = i + 1;
    }
    assert(ssv(r@) =~= ccv(found@));
    r
}

/// The same, over the text's characters.
pub fn imported_paths_chars(t: &[char]) -> (r: Vec<Vec<Vec<char>>>)
    ensures
        ccv(r@) == imports_of(t@),
{
    let ls = lines_exec(t);
    let ghost views = cv(ls@);
    let mut paths: Vec<Vec<Vec<char>>> = Vec::new();
    let mut i: usize = 0;
    while i < ls.len()
        invariant
            i <= ls.len(),
            views == cv(ls@),
            views == lines(t@),
            ccv(paths@) == first_seen(all_targets(views.take(i as int))),
        decreases ls.len() - i,
    {
        let trimmed = trim_start_exec(&ls[i]);
        assert(views.take(i + 1).drop_last() =~= views.take(i as int));
        let ghost done = all_targets(views.take(i as int));
        let ghost here = line_targets(views[i as int]);
        assert(all_targets(views.take(i + 1)) == done + here);
        if is_import_chars(&trimmed) {
            let targets = targets_exec(&trimmed);
            let mut k: usize = 0;
            assert(done + here.take(0) =~= done);
            while k < targets.len()
                invariant
                    k <= targets.len(),
                    here == cv(targets@).map_values(|target: Seq<char>| segments_of(target)),
                    ccv(paths@) == first_seen(done + here.take(k as int)),
                decreases targets.len() - k,
            {
                let segs = segments_exec(&targets[k]);
                assert(cv(segs@) == here[k as int]);
                let ghost xs = done + here.take(k + 1);
                assert(xs.drop_last() =~= done + here.take(k as int));
                assert(xs.last() == here[k as int]);
                let ghost before = ccv(paths@);
                if segs.len() > 0 && !contains_segments(&paths, &segs) {
                    paths.push(segs);
                    assert(ccv(paths@) =~= before.push(cv(segs@)));
                }
                k = k + 1;
            }
            assert(here.take(targets.len() as int) =~= here);
        } else {
            assert(here =~= Seq::<Seq<Seq<char>>>::empty());
            assert(done + here =~= done);
        }
        i = i + 1;
    }
    assert(views.take(ls.len() as int) =~= views);
    paths
}


// ---------------------------------------------------------------------------
// Laws
// ---------------------------------------------------------------------------

proof fn lemma_first_seen(xs: Seq<Seq<Seq<char>>>)
    ensures
        forall|i: int, j: int|
            0 <= i < j < first_seen(xs).len() ==> #[trigger] first_seen(xs)[i] != #[trigger] first_seen(xs)[j],
        forall|i: int| 0 <= i < first_seen(xs).len() ==> #[trigger] first_seen(xs)[i].len() > 0,
        forall|x: Seq<Seq<char>>| #[trigger] first_seen(xs).contains(x) <==> (x.len() > 0 && xs.contains(x)),
    decreases xs.len(),
{
    if xs.len() > 0 {
        lemma_first_seen(xs.drop_last());
        let kept = first_seen(xs.drop_last());
        let x = xs.last();
        assert forall|y: Seq<Seq<char>>| #[trigger] first_seen(xs).contains(y) <==> (y.len() > 0 && xs.contains(y)) by {
            if xs.contains(y) && y != x {
                let q = choose|q: int| 0 <= q < xs.len() && xs[q] == y;
                assert(xs.drop_last()[q] == y);
            }
            if xs.drop_last().contains(y) {
                let q = choose|q: int| 0 <= q < xs.drop_last().len() && xs.drop_last()[q] == y;
                assert(xs[q] == y);
            }
            assert(xs[xs.len() - 1] == x);
            if first_seen(xs).contains(y) && !kept.contains(y) {
                let q = choose|q: int| 0 <= q < first_seen(xs).len() && first_seen(xs)[q] == y;
                assert(q == kept.len());
            }
            if kept.contains(y) {
                let q = choose|q: int| 0 <= q < kept.len() && kept[q] == y;
                assert(first_seen(xs)[q] == y);
            }
            if !(x.len() == 0 || kept.contains(x)) && y == x {
                assert(first_seen(xs)[kept.len() as int] == x);
            }
        }
        if !(x.len() == 0 || kept.contains(x)) {
            assert forall|i: int, j: int| 0 <= i < j < first_seen(xs).len() implies #[trigger] first_seen(xs)[i]
                != #[trigger] first_seen(xs)[j] by {
                if j == kept.len() {
                    assert(kept[i] == first_seen(xs)[i]);
                } else {
                    assert(kept[i] == first_seen(xs)[i] && kept[j] == first_seen(xs)[j]);
                }
            }
        }
    }
}

/// A file's imports are listed each once: no path twice, none empty, and
/// every non-empty target an import line names is among them.
pub proof fn law_each_import_is_listed_once(text: Seq<char>)
    ensures
        forall|i: int, j: int|
            0 <= i < j < imports_of(text).len() ==> #[trigger] imports_of(text)[i] != #[trigger] imports_of(text)[j],
        forall|i: int| 0 <= i < imports_of(text).len() ==> #[trigger] imports_of(text)[i].len() > 0,
        forall|x: Seq<Seq<char>>|
            #[trigger] imports_of(text).contains(x) <==> (x.len() > 0 && all_targets(lines(text)).contains(x)),
{
    lemma_first_seen(all_targets(lines(text)));
}

/// Every line that opens with one of the import keywords is an import line,
/// whatever follows: `import`, `from`, `use`, `mod`, `pub use`, `pub mod`,
/// `include`, `require`, `export`, `using`, `source` (each with a space),
/// `import(`, `load(`, `#include`, `@import` and `extern crate`; and so is
/// every line that calls `require(`, `import(` or `importlib` anywhere; and
/// no other line is.
pub proof fn law_import_keywords_open_import_lines(t: Seq<char>)
    ensures
        starts_with(t, "import "@) || starts_with(t, "import("@) || starts_with(t, "from "@) || starts_with(t, "use "@)
            || starts_with(t, "#include"@) || starts_with(t, "include "@) || starts_with(t, "require "@) || starts_with(
            t,
            "@import"@,
        ) || starts_with(t, "export "@) || starts_with(t, "using "@) || starts_with(t, "extern crate"@) || starts_with(
            t,
            "source "@,
        ) || starts_with(t, "load("@) || starts_with(t, "mod "@) || starts_with(t, "pub use "@) || starts_with(
            t,
            "pub mod "@,
        ) ==> is_import(t),
        contains_seq(t, "require("@) || contains_seq(t, "import("@) || contains_seq(t, "importlib"@) ==> is_import(t),
        is_import(t) ==> starts_with(t, "import "@) || starts_with(t, "import("@) || starts_with(t, "from "@)
            || starts_with(t, "use "@) || starts_with(t, "#include"@) || starts_with(t, "include "@) || starts_with(
            t,
            "require "@,
        ) || starts_with(t, "@import"@) || starts_with(t, "export "@) || starts_with(t, "using "@) || starts_with(
            t,
            "extern crate"@,
        ) || starts_with(t, "source "@) || starts_with(t, "load("@) || starts_with(t, "mod "@) || starts_with(
            t,
            "pub use "@,
        ) || starts_with(t, "pub mod "@) || contains_seq(t, "require("@) || contains_seq(t, "import("@)
            || contains_seq(t, "importlib"@),
{
    if contains_seq(t, "from importlib"@) {
        reveal_strlit("from importlib");
        reveal_strlit("importlib");
        let i = choose|i: int| crate::text::occurs_at(t, "from importlib"@, i);
        assert(t.subrange(i + 5, i + 5 + 9) =~= "importlib"@) by {
            assert forall|k: int| 0 <= k < 9 implies t.subrange(i + 5, i + 14)[k] == "importlib"@[k] by {
                assert(t.subrange(i, i + 14)[k + 5] == "from importlib"@[k + 5]);
            }
        }
        assert(crate::text::occurs_at(t, "importlib"@, i + 5));
    }
}

} // verus!
