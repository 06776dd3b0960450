//! The counted facts read off a file's text: its lines, the lines that hold
//! code, and a rough count of the branches in it.

use vstd::prelude::*;
use crate::model::Category;
use crate::text::{
    chars_of, lines, occurs_at, occurs_here, split, split_exec, starts_with, starts_with_str,
    strip_cr, trim, trim_exec, Sep,
};

verus! {

/// How many times `p` occurs in `s`, counting left to right and never
/// letting two occurrences overlap, as `str::matches(..).count()` does.
pub open spec fn count_matches(s: Seq<char>, p: Seq<char>) -> nat
    decreases s.len(),
{
    if p.len() == 0 || s.len() < p.len() {
        0
    } else if starts_with(s, p) {
        1 + count_matches(s.skip(p.len() as int), p)
    } else {
        count_matches(s.drop_first(), p)
    }
}

/// The words and operators that mark a branch.
pub open spec fn branch_tokens() -> Seq<Seq<char>> {
    seq![
        " if "@,
        " for "@,
        " while "@,
        " match "@,
        " switch "@,
        " catch "@,
        " case "@,
        "&&"@,
        "||"@,
        " else "@,
    ]
}

/// A line trimmed and padded with one space on either side.
pub open spec fn padded(line: Seq<char>) -> Seq<char> {
    seq![' '] + trim(line) + seq![' ']
}

/// The branch marks on one line, token by token from the first `k`.
pub open spec fn token_hits(line: Seq<char>, k: nat) -> nat
    decreases k,
{
    if k == 0 {
        0
    } else {
        token_hits(line, (k - 1) as nat) + count_matches(padded(line), branch_tokens()[k - 1])
    }
}

/// The branch marks on one line.
pub open spec fn line_complexity(line: Seq<char>) -> nat {
    token_hits(line, 10)
}

/// The branch marks over a run of lines.
pub open spec fn lines_complexity(ls: Seq<Seq<char>>) -> nat
    decreases ls.len(),
{
    if ls.len() == 0 {
        0
    } else {
        lines_complexity(ls.drop_last()) + line_complexity(ls.last())
    }
}

/// Whether a file of this category is counted for branches at all.
pub open spec fn has_branches(category: Category) -> bool {
    category == Category::Source || category == Category::Web || category == Category::Script
        || category == Category::Test
}

/// A rough branch count for a file's text.
pub open spec fn complexity_of(text: Seq<char>, category: Category) -> nat {
    if has_branches(category) {
        lines_complexity(lines(text))
    } else {
        0
    }
}

/// A trimmed line that holds code: not blank, and not opened like a comment.
pub open spec fn is_code(trimmed: Seq<char>) -> bool {
    trimmed.len() > 0 && !starts_with(trimmed, "//"@) && !starts_with(trimmed, "#"@)
        && !starts_with(trimmed, "<!--"@)
}

/// How many of the lines hold code.
pub open spec fn code_line_count(ls: Seq<Seq<char>>) -> nat
    decreases ls.len(),
{
    if ls.len() == 0 {
        0
    } else {
        code_line_count(ls.drop_last()) + if is_code(trim(ls.last())) {
            1nat
        } else {
            0nat
        }
    }
}

/// Each piece's length plus one, summed.
pub open spec fn sum_len1(ps: Seq<Seq<char>>) -> nat
    decreases ps.len(),
{
    if ps.len() == 0 {
        0
    } else {
        sum_len1(ps.drop_last()) + ps.last().len() + 1
    }
}

// ---------------------------------------------------------------------------
// Lemmas
// ---------------------------------------------------------------------------

proof fn lemma_count_bound(s: Seq<char>, p: Seq<char>)
    requires
        p.len() > 0,
    ensures
        count_matches(s, p) * p.len() <= s.len(),
    decreases s.len(),
{
    if s.len() >= p.len() {
        if starts_with(s, p) {
            let rest = s.skip(p.len() as int);
            lemma_count_bound(rest, p);
            let c = count_matches(rest, p);
            assert(count_matches(s, p) == 1 + c);
            assert((1 + c) * p.len() == p.len() + c * p.len()) by (nonlinear_arith);
        } else {
            lemma_count_bound(s.drop_first(), p);
            assert(count_matches(s, p) == count_matches(s.drop_first(), p));
        }
    } else {
        assert(count_matches(s, p) == 0);
        assert(0 * p.len() == 0);
    }
}

proof fn lemma_trim_shorter(s: Seq<char>)
    ensures
        trim(s).len() <= s.len(),
{
    lemma_trim_start_shorter(s);
    lemma_trim_end_shorter(crate::text::trim_start(s));
}

proof fn lemma_trim_start_shorter(s: Seq<char>)
    ensures
        crate::text::trim_start(s).len() <= s.len(),
    decreases s.len(),
{
    if s.len() > 0 && crate::text::is_ws(s[0]) {
        lemma_trim_start_shorter(s.drop_first());
    }
}

proof fn lemma_trim_end_shorter(s: Seq<char>)
    ensures
        crate::text::trim_end(s).len() <= s.len(),
    decreases s.len(),
{
    if s.len() > 0 && crate::text::is_ws(s.last()) {
        lemma_trim_end_shorter(s.drop_last());
    }
}

proof fn lemma_token_hits_bound(line: Seq<char>, k: nat)
    requires
        k <= 10,
    ensures
        token_hits(line, k) * 2 <= k * padded(line).len(),
    decreases k,
{
    reveal_strlit(" if ");
    reveal_strlit(" for ");
    reveal_strlit(" while ");
    reveal_strlit(" match ");
    reveal_strlit(" switch ");
    reveal_strlit(" catch ");
    reveal_strlit(" case ");
    reveal_strlit("&&");
    reveal_strlit("||");
    reveal_strlit(" else ");
    if k > 0 {
        lemma_token_hits_bound(line, (k - 1) as nat);
        let tok = branch_tokens()[k - 1];
        assert(tok.len() >= 2);
        lemma_count_bound(padded(line), tok);
        let c = count_matches(padded(line), tok);
        assert(c * 2 <= c * tok.len()) by (nonlinear_arith)
            requires
                tok.len() >= 2,
        ;
        assert(k * padded(line).len() == (k - 1) * padded(line).len() + padded(line).len())
            by (nonlinear_arith);
    }
}

proof fn lemma_line_bound(line: Seq<char>)
    ensures
        line_complexity(line) <= 10 * (line.len() + 1),
{
    lemma_token_hits_bound(line, 10);
    lemma_trim_shorter(line);
}

proof fn lemma_sum_len1_prefix(ps: Seq<Seq<char>>, i: int)
    requires
        0 <= i <= ps.len(),
    ensures
        sum_len1(ps.take(i)) <= sum_len1(ps),
        i <= sum_len1(ps.take(i)),
    decreases ps.len() - i,
{
    if i < ps.len() {
        lemma_sum_len1_prefix(ps, i + 1);
        assert(ps.take(i + 1).drop_last() =~= ps.take(i));
    } else {
        assert(ps.take(i) =~= ps);
    }
    lemma_sum_len1_at_least_len(ps.take(i));
}

proof fn lemma_sum_len1_at_least_len(ps: Seq<Seq<char>>)
    ensures
        ps.len() <= sum_len1(ps),
    decreases ps.len(),
{
    if ps.len() > 0 {
        lemma_sum_len1_at_least_len(ps.drop_last());
    }
}

proof fn lemma_split_sum(s: Seq<char>)
    ensures
        sum_len1(split(s, Sep::Newline)) == s.len() + 1,
    decreases s.len(),
{
    let sp = split(s, Sep::Newline);
    if s.len() > 0 {
        lemma_split_sum(s.drop_last());
        let before = split(s.drop_last(), Sep::Newline);
        crate::text::lemma_split_nonempty(s.drop_last(), Sep::Newline);
        if s.last() == '\n' {
            assert(sp == before.push(Seq::<char>::empty()));
            assert(sp.drop_last() =~= before);
            assert(sum_len1(sp) == sum_len1(sp.drop_last()) + sp.last().len() + 1);
        } else {
            assert(sp == before.update(before.len() - 1, before.last().push(s.last())));
            assert(sp.drop_last() =~= before.drop_last());
            assert(sum_len1(sp) == sum_len1(sp.drop_last()) + sp.last().len() + 1);
            assert(sum_len1(before) == sum_len1(before.drop_last()) + before.last().len() + 1);
        }
    } else {
        assert(sp == seq![Seq::<char>::empty()]);
        assert(sp.drop_last() =~= Seq::<Seq<char>>::empty());
        assert(sum_len1(sp) == sum_len1(sp.drop_last()) + sp.last().len() + 1);
    }
}

proof fn lemma_sum_len1_shrink(a: Seq<Seq<char>>, b: Seq<Seq<char>>)
    requires
        a.len() == b.len(),
        forall|i: int| 0 <= i < a.len() ==> a[i].len() <= b[i].len(),
    ensures
        sum_len1(a) <= sum_len1(b),
    decreases a.len(),
{
    if a.len() > 0 {
        lemma_sum_len1_shrink(a.drop_last(), b.drop_last());
    }
}

proof fn lemma_lines_sum(s: Seq<char>)
    ensures
        sum_len1(lines(s)) <= s.len() + 1,
{
    let parts = split(s, Sep::Newline);
    crate::text::lemma_split_nonempty(s, Sep::Newline);
    lemma_split_sum(s);
    let ended = parts.drop_last().map_values(|p: Seq<char>| strip_cr(p));
    lemma_sum_len1_shrink(ended, parts.drop_last());
    assert(sum_len1(parts) == sum_len1(parts.drop_last()) + parts.last().len() + 1);
    if parts.last().len() != 0 {
        assert(lines(s).drop_last() =~= ended);
    }
}

// ---------------------------------------------------------------------------
// Executable counterparts
// ---------------------------------------------------------------------------

/// The lines of a text.
pub fn lines_exec(text: &[char]) -> (r: Vec<Vec<char>>)
    ensures
        r@.map_values(|l: Vec<char>| l@) == lines(text@),
{
    let parts = split_exec(text, Sep::Newline);
    proof {
        crate::text::lemma_split_nonempty(text@, Sep::Newline);
    }
    let ghost views = parts@.map_values(|p: Vec<char>| p@);
    let mut r: Vec<Vec<char>> = Vec::new();
    let mut i: usize = 0;
    while i + 1 < parts.len()
        invariant
            i + 1 <= parts.len(),
            views == parts@.map_values(|p: Vec<char>| p@),
            r@.len() == i,
            forall|j: int| 0 <= j < i ==> #[trigger] r@[j]@ == strip_cr(views[j]),
        decreases parts.len() - i,
    {
        let p = &parts[i];
        let n = p.len();
        if n > 0 && p[n - 1] == '\r' {
            r.push(crate::text::slice_chars(p, 0, n - 1));
        } else {
            r.push(crate::text::slice_chars(p, 0, n));
            assert(p@.subrange(0, n as int) =~= p@);
        }
        proof {
            if n > 0 && p@[n - 1] == '\r' {
                assert(p@.subrange(0, n - 1) =~= p@.drop_last());
            }
        }
        i = i + 1;
    }
    let last = &parts[parts.len() - 1];
    let ghost ended = views.drop_last().map_values(|p: Seq<char>| strip_cr(p));
    assert(r@.map_values(|l: Vec<char>| l@) =~= ended);
    if last.len() > 0 {
        r.push(crate::text::slice_chars(last, 0, last.len()));
        assert(last@.subrange(0, last.len() as int) =~= last@);
        assert(r@.map_values(|l: Vec<char>| l@) =~= ended.push(views.last()));
    }
    r
}

/// Non-overlapping occurrences of `p` in `s`, left to right.
pub fn count_matches_exec(s: &[char], p: &[char]) -> (n: usize)
    requires
        p.len() > 0,
    ensures
        n == count_matches(s@, p@),
{
    let mut n: usize = 0;
    let mut i: usize = 0;
    assert(s@.skip(0) =~= s@);
    proof {
        lemma_count_bound(s@, p@);
        let c = count_matches(s@, p@);
        assert(c <= c * p.len()) by (nonlinear_arith)
            requires
                p.len() >= 1,
        ;
    }
    while i < s.len() && p.len() <= s.len() - i
        invariant
            i <= s.len(),
            p.len() > 0,
            n + count_matches(s@.skip(i as int), p@) == count_matches(s@, p@),
            count_matches(s@, p@) <= s.len(),
        decreases s.len() - i,
    {
        let ghost rest = s@.skip(i as int);
        if occurs_here(s, p, i) {
            assert(rest.subrange(0, p.len() as int) =~= s@.subrange(i as int, i + p.len()));
            assert(rest.skip(p.len() as int) =~= s@.skip(i + p.len()));
            n = n + 1;
            i = i + p.len();
        } else {
            assert(rest.subrange(0, p.len() as int) =~= s@.subrange(i as int, i + p.len()));
            assert(rest.drop_first() =~= s@.skip(i + 1));
            i = i + 1;
        }
    }
    n
}

fn padded_exec(line: &[char]) -> (r: Vec<char>)
    ensures
        r@ == padded(line@),
{
    let t = trim_exec(line);
    let mut r: Vec<char> = Vec::new();
    r.push(' ');
    let mut i: usize = 0;
    while i < t.len()
        invariant
            i <= t.len(),
            r@ == seq![' '] + t@.take(i as int),
        decreases t.len() - i,
    {
        r.push(t[i]);
        i = i + 1;
        assert(seq![' '] + t@.take(i as int) =~= (seq![' '] + t@.take((i - 1) as int)).push(
            t@[i - 1],
        ));
    }
    r.push(' ');
    assert(t@.take(t.len() as int) =~= t@);
    assert(r@ =~= seq![' '] + trim(line@) + seq![' ']);
    r
}

fn line_complexity_exec(line: &[char]) -> (n: usize)
    requires
        line.len() < usize::MAX / 20,
    ensures
        n == line_complexity(line@),
{
    let p = padded_exec(line);
    let tokens = [" if ", " for ", " while ", " match ", " switch ", " catch ", " case ", "&&", "||", " else "];
    proof {
        reveal_strlit(" if ");
        reveal_strlit(" for ");
        reveal_strlit(" while ");
        reveal_strlit(" match ");
        reveal_strlit(" switch ");
        reveal_strlit(" catch ");
        reveal_strlit(" case ");
        reveal_strlit("&&");
        reveal_strlit("||");
        reveal_strlit(" else ");
        lemma_token_hits_bound(line@, 10);
        lemma_trim_shorter(line@);
        assert(tokens@.map_values(|t: &str| t@) =~= branch_tokens());
        assert(forall|j: int| 0 <= j < 10 ==> #[trigger] branch_tokens()[j].len() >= 2);
    }
    let mut n: usize = 0;
    let mut k: usize = 0;
    while k < 10
        invariant
            k <= 10,
            p@ == padded(line@),
            tokens@.map_values(|t: &str| t@) == branch_tokens(),
            forall|j: int| 0 <= j < 10 ==> #[trigger] branch_tokens()[j].len() >= 2,
            n == token_hits(line@, k as nat),
            token_hits(line@, 10) * 2 <= 10 * padded(line@).len(),
            padded(line@).len() <= line.len() + 2,
            line.len() < usize::MAX / 20,
        decreases 10 - k,
    {
        let tok = chars_of(tokens[k]);
        assert(tok@ == branch_tokens()[k as int]);
        assert(tok@.len() > 0);
        let c = count_matches_exec(&p, &tok);
        proof {
            lemma_token_hits_monotone(line@, (k + 1) as nat, 10);
        }
        n = n + c;
        k = k + 1;
    }
    n
}

proof fn lemma_token_hits_monotone(line: Seq<char>, a: nat, b: nat)
    requires
        a <= b,
    ensures
        token_hits(line, a) <= token_hits(line, b),
    decreases b,
{
    if a < b {
        lemma_token_hits_monotone(line, a, (b - 1) as nat);
    }
}

/// A rough count of the branches in a file's text: the branch keywords and
/// boolean operators on each trimmed line, for code categories only.
///
/// The count is a `usize` and may reach ten for every character, which is
/// what bounds the text.
pub fn estimate_complexity(text: &str, category: Category) -> (n: usize)
    requires
        text@.len() < usize::MAX / 20,
    ensures
        n == complexity_of(text@, category),
{
    let is_code_category = match category {
        Category::Source | Category::Web | Category::Script | Category::Test => true,
        _ => false,
    };
    if !is_code_category {
        return 0;
    }
    let t = chars_of(text);
    let ls = lines_exec(&t);
    let ghost views = ls@.map_values(|l: Vec<char>| l@);
    proof {
        lemma_lines_sum(t@);
    }
    let mut n: usize = 0;
    let mut i: usize = 0;
    while i < ls.len()
        invariant
            i <= ls.len(),
            views == ls@.map_values(|l: Vec<char>| l@),
            views == lines(t@),
            sum_len1(views) <= t@.len() + 1,
            t@.len() < usize::MAX / 20,
            n == lines_complexity(views.take(i as int)),
            n <= 10 * sum_len1(views.take(i as int)),
        decreases ls.len() - i,
    {
        proof {
            lemma_sum_len1_prefix(views, i + 1);
            assert(views.take(i + 1).drop_last() =~= views.take(i as int));
            lemma_line_bound(views[i as int]);
        }
        let c = line_complexity_exec(&ls[i]);
        n = n + c;
        i = i + 1;
    }
    assert(views.take(ls.len() as int) =~= views);
    n
}

/// How many lines a text has, and how many of them hold code.
pub fn count_lines(text: &str) -> (r: (usize, usize))
    ensures
        r.0 == lines(text@).len(),
        r.1 == code_line_count(lines(text@)),
{
    let t = chars_of(text);
    let ls = lines_exec(&t);
    let ghost views = ls@.map_values(|l: Vec<char>| l@);
    let mut code: usize = 0;
    let mut i: usize = 0;
    while i < ls.len()
        invariant
            i <= ls.len(),
            views == ls@.map_values(|l: Vec<char>| l@),
            code == code_line_count(views.take(i as int)),
            code <= i,
        decreases ls.len() - i,
    {
        let trimmed = trim_exec(&ls[i]);
        assert(views.take(i + 1).drop_last() =~= views.take(i as int));
        if trimmed.len() > 0 && !starts_with_str(&trimmed, "//") && !starts_with_str(&trimmed, "#")
            && !starts_with_str(&trimmed, "<!--") {
            code = code + 1;
        }
        i = i + 1;
    }
    assert(views.take(ls.len() as int) =~= views);
    (ls.len(), code)
}

/// The category only switches the branch count on or off: it is the same
/// count for source, interface, script and test code, and nothing for any
/// other category.
pub proof fn law_code_categories_count_branches_alike(text: Seq<char>)
    ensures
        complexity_of(text, Category::Web) == complexity_of(text, Category::Source),
        complexity_of(text, Category::Script) == complexity_of(text, Category::Source),
        complexity_of(text, Category::Test) == complexity_of(text, Category::Source),
        complexity_of(text, Category::Source) == lines_complexity(lines(text)),
        complexity_of(text, Category::Docs) == 0,
        complexity_of(text, Category::Config) == 0,
        complexity_of(text, Category::Data) == 0,
        complexity_of(text, Category::Asset) == 0,
        complexity_of(text, Category::Other) == 0,
{
}

/// A line's branch marks are its occurrences, trimmed and padded with a
/// space on either side, of `if`, `for`, `while`, `match`, `switch`,
/// `catch`, `case` and `else` as words, and of `&&` and `||`, each counted
/// on its own.
pub proof fn law_branch_marks_are_counted_token_by_token(line: Seq<char>)
    ensures
        line_complexity(line) == count_matches(padded(line), " if "@) + count_matches(padded(line), " for "@) + count_matches(padded(line), " while "@) + count_matches(padded(line), " match "@) + count_matches(padded(line), " switch "@) + count_matches(padded(line), " catch "@) + count_matches(padded(line), " case "@) + count_matches(padded(line), "&&"@) + count_matches(padded(line), "||"@) + count_matches(padded(line), " else "@),
{
    reveal_with_fuel(token_hits, 11);
    assert(branch_tokens()[0] == " if "@ && branch_tokens()[1] == " for "@ && branch_tokens()[2] == " while "@);
    assert(branch_tokens()[3] == " match "@ && branch_tokens()[4] == " switch "@ && branch_tokens()[5] == " catch "@);
    assert(branch_tokens()[6] == " case "@ && branch_tokens()[7] == "&&"@ && branch_tokens()[8] == "||"@);
    assert(branch_tokens()[9] == " else "@);
}

} // verus!
