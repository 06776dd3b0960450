//! Assembling the scanned tree: hanging each file under its folders, then
//! ordering every folder's contents and totalling its facts.

use vstd::prelude::*;
use crate::imports::sv;
use crate::model::{
    empty_dir, is_dir, lemma_models_index, Metrics, Node, NodeKind, NodeModel,
};
use crate::text::{
    chars_lt, chars_of, lemma_chars_lt_irreflexive, lemma_chars_lt_transitive, string_of,
};

verus! {

// ---------------------------------------------------------------------------
// Inserting a file
// ---------------------------------------------------------------------------

/// The first folder among `children` called `name`, or `-1`.
pub open spec fn folder_index(children: Seq<NodeModel>, name: Seq<char>) -> int
    decreases children.len(),
{
    if children.len() == 0 {
        -1
    } else {
        let before = folder_index(children.drop_last(), name);
        if before >= 0 {
            before
        } else if is_dir(children.last()) && children.last().name == name {
            children.len() - 1
        } else {
            -1
        }
    }
}

/// `name` below the folder at `parent`, as `Path::join` writes it.
pub open spec fn child_path(parent: Seq<char>, name: Seq<char>) -> Seq<char> {
    if parent.len() == 0 {
        name
    } else {
        parent + seq!['/'] + name
    }
}

/// `parent` with `children` in place of its own.
pub open spec fn with_children(parent: NodeModel, children: Seq<NodeModel>) -> NodeModel {
    NodeModel {
        name: parent.name,
        path: parent.path,
        kind: parent.kind,
        metrics: parent.metrics,
        children,
    }
}

/// `parent` with `file` hung under the folders `components` names, below it;
/// the last component is the file's own name. A folder on the way is reused
/// where one of that name is already there, and made empty where not.
pub open spec fn inserted(parent: NodeModel, components: Seq<Seq<char>>, file: NodeModel) -> NodeModel
    decreases components.len(),
{
    if components.len() <= 1 {
        with_children(parent, parent.children.push(file))
    } else {
        let i = folder_index(parent.children, components[0]);
        if 0 <= i < parent.children.len() {
            with_children(
                parent,
                parent.children.update(i, inserted(parent.children[i], components.drop_first(), file)),
            )
        } else {
            let fresh = empty_dir(components[0], child_path(parent.path, components[0]));
            with_children(parent, parent.children.push(inserted(fresh, components.drop_first(), file)))
        }
    }
}

proof fn lemma_folder_index(children: Seq<NodeModel>, name: Seq<char>)
    ensures
        -1 <= folder_index(children, name) < children.len(),
        folder_index(children, name) >= 0 ==> is_dir(children[folder_index(children, name)])
            && children[folder_index(children, name)].name == name,
        forall|j: int|
            0 <= j < children.len() && (folder_index(children, name) < 0 || j < folder_index(
                children,
                name,
            )) ==> !(is_dir(#[trigger] children[j]) && children[j].name == name),
    decreases children.len(),
{
    if children.len() > 0 {
        lemma_folder_index(children.drop_last(), name);
        assert(forall|j: int| 0 <= j < children.len() - 1 ==> children.drop_last()[j] == children[j]);
    }
}

/// The path of a folder below `parent`.
fn child_path_exec(parent: &String, name: &String) -> (r: String)
    ensures
        r@ == child_path(parent@, name@),
{
    let p = chars_of(parent.as_str());
    let n = chars_of(name.as_str());
    if p.len() == 0 {
        return string_of(&n);
    }
    let mut all = p;
    all.push('/');
    let mut i: usize = 0;
    let ghost base = all@;
    while i < n.len()
        invariant
            i <= n.len(),
            all@ == base + n@.take(i as int),
        decreases n.len() - i,
    {
        all.push(n[i]);
        i = i + 1;
        assert(base + n@.take(i as int) =~= (base + n@.take((i - 1) as int)).push(n@[i - 1]));
    }
    assert(n@.take(n.len() as int) =~= n@);
    string_of(&all)
}

/// Where a folder called `name` stands among `children`.
fn folder_position(children: &Vec<Node>, name: &String) -> (r: Option<usize>)
    ensures
        match r {
            Some(i) => i as int == folder_index(Node::models(children@), name@),
            None => folder_index(Node::models(children@), name@) < 0,
        },
{
    let ghost ms = Node::models(children@);
    proof {
        lemma_models_index(children@);
        lemma_folder_index(ms, name@);
    }
    let mut i: usize = 0;
    while i < children.len()
        invariant
            i <= children.len(),
            ms == Node::models(children@),
            ms.len() == children.len(),
            forall|j: int| 0 <= j < children.len() ==> #[trigger] ms[j] == children@[j]@,
            forall|j: int| 0 <= j < i ==> !(is_dir(#[trigger] ms[j]) && ms[j].name == name@),
        decreases children.len() - i,
    {
        if children[i].is_directory() && children[i].name == *name {
            assert(is_dir(ms[i as int]) && ms[i as int].name == name@);
            proof {
                lemma_folder_index(ms, name@);
                if folder_index(ms, name@) >= 0 && folder_index(ms, name@) < i {
                    let f = folder_index(ms, name@);
                    assert(is_dir(ms[f]) && ms[f].name == name@);
                }
            }
            return Some(i);
        }
        i = i + 1;
    }
    proof {
        lemma_folder_index(ms, name@);
        if folder_index(ms, name@) >= 0 {
            let f = folder_index(ms, name@);
            assert(is_dir(ms[f]) && ms[f].name == name@);
        }
    }
    None
}

proof fn lemma_models_update(children: Seq<Node>, i: int, child: Node)
    requires
        0 <= i < children.len(),
    ensures
        Node::models(children.update(i, child)) == Node::models(children).update(i, child@),
{
    lemma_models_index(children);
    lemma_models_index(children.update(i, child));
    assert(Node::models(children.update(i, child)) =~= Node::models(children).update(i, child@));
}

proof fn lemma_models_push(children: Seq<Node>, child: Node)
    ensures
        Node::models(children.push(child)) == Node::models(children).push(child@),
{
    assert(children.push(child).drop_last() =~= children);
}

/// Hangs `file` under the folders that `components[at..]` names, below
/// `parent`; the last component is the file's own name.
pub fn insert_components(parent: &mut Node, components: &Vec<String>, at: usize, file: Node)
    requires
        at <= components.len(),
    ensures
        final(parent)@ == inserted(old(parent)@, sv(components@).skip(at as int), file@),
    decreases components.len() - at,
{
    let ghost comps = sv(components@).skip(at as int);
    if components.len() - at <= 1 {
        let ghost before = parent.children@;
        parent.children.push(file);
        proof {
            lemma_models_push(before, file);
        }
        return;
    }
    assert(comps[0] == components@[at as int]@);
    assert(comps.drop_first() =~= sv(components@).skip(at + 1));
    proof {
        lemma_models_index(parent.children@);
        lemma_folder_index(Node::models(parent.children@), components@[at as int]@);
    }
    let ghost old_models = Node::models(parent.children@);
    let ghost old_model = parent@;
    let found = folder_position(&parent.children, &components[at]);
    let index = match found {
        Some(i) => i,
        None => {
            let path = child_path_exec(&parent.relative_path, &components[at]);
            let fresh = Node::directory(components[at].clone(), path);
            let ghost before = parent.children@;
            parent.children.push(fresh);
            proof {
                lemma_models_push(before, fresh);
            }
            parent.children.len() - 1
        },
    };
    let ghost mid = parent.children@;
    proof {
        lemma_models_index(mid);
    }
    let mut child = parent.children.remove(index);
    assert(child@ == Node::models(mid)[index as int]);
    insert_components(&mut child, components, at + 1, file);
    parent.children.insert(index, child);
    proof {
        assert(parent.children@ =~= mid.update(index as int, child));
        lemma_models_update(mid, index as int, child);
        let rest = comps.drop_first();
        let i = folder_index(old_models, comps[0]);
        if found is Some {
            assert(mid == old(parent).children@);
            assert(Node::models(parent.children@) =~= old_models.update(
                i,
                inserted(old_models[i], rest, file@),
            ));
        } else {
            let fresh = empty_dir(comps[0], child_path(old_model.path, comps[0]));
            assert(Node::models(mid) == old_models.push(fresh));
            assert(Node::models(parent.children@) =~= old_models.push(inserted(fresh, rest, file@)));
        }
    }
}

/// Hangs a file under the folders its relative path names.
pub fn insert_file(root: &mut Node, relative: &str, file: Node)
    ensures
        final(root)@ == inserted(
            old(root)@,
            crate::paths::names(relative@),
            file@,
        ),
{
    let p = chars_of(relative);
    let names = crate::paths::names_exec(&p);
    let components = crate::imports::strings_of(&names);
    assert(sv(components@).skip(0) =~= sv(components@));
    insert_components(root, &components, 0, file);
}

// ---------------------------------------------------------------------------
// Ordering and totalling
// ---------------------------------------------------------------------------

/// The six counted facts, in unbounded integers.
pub struct Totals {
    pub bytes: int,
    pub lines: int,
    pub code_lines: int,
    pub complexity: int,
    pub file_count: int,
    pub references: int,
}

pub open spec fn totals_of(m: Metrics) -> Totals {
    Totals {
        bytes: m.bytes as int,
        lines: m.lines as int,
        code_lines: m.code_lines as int,
        complexity: m.complexity as int,
        file_count: m.file_count as int,
        references: m.references as int,
    }
}

pub open spec fn zero_totals() -> Totals {
    Totals { bytes: 0, lines: 0, code_lines: 0, complexity: 0, file_count: 0, references: 0 }
}

pub open spec fn plus(a: Totals, b: Totals) -> Totals {
    Totals {
        bytes: a.bytes + b.bytes,
        lines: a.lines + b.lines,
        code_lines: a.code_lines + b.code_lines,
        complexity: a.complexity + b.complexity,
        file_count: a.file_count + b.file_count,
        references: a.references + b.references,
    }
}

/// Every fact at least zero and small enough for its field.
pub open spec fn fits(t: Totals) -> bool {
    &&& 0 <= t.bytes <= u64::MAX
    &&& 0 <= t.lines <= usize::MAX
    &&& 0 <= t.code_lines <= usize::MAX
    &&& 0 <= t.complexity <= usize::MAX
    &&& 0 <= t.file_count <= usize::MAX
    &&& 0 <= t.references <= usize::MAX
}

/// `a` is nowhere larger than `b`.
pub open spec fn le(a: Totals, b: Totals) -> bool {
    a.bytes <= b.bytes && a.lines <= b.lines && a.code_lines <= b.code_lines && a.complexity
        <= b.complexity && a.file_count <= b.file_count && a.references <= b.references
}

pub open spec fn nonneg(a: Totals) -> bool {
    le(zero_totals(), a)
}

pub open spec fn metrics_of(t: Totals) -> Metrics {
    Metrics {
        bytes: t.bytes as u64,
        lines: t.lines as usize,
        code_lines: t.code_lines as usize,
        complexity: t.complexity as usize,
        file_count: t.file_count as usize,
        references: t.references as usize,
    }
}

/// A file's own facts, or the sum over every file below a folder.
pub open spec fn tree_total(m: NodeModel) -> Totals
    decreases m,
{
    if !is_dir(m) {
        totals_of(m.metrics)
    } else {
        children_total(m.children)
    }
}

/// The sum of the totals of a run of nodes.
pub open spec fn children_total(s: Seq<NodeModel>) -> Totals
    decreases s,
{
    if s.len() == 0 {
        zero_totals()
    } else {
        plus(children_total(s.drop_last()), tree_total(s.last()))
    }
}

/// Unicode lowercase, which is what `str::to_lowercase` gives.
pub uninterp spec fn unicode_lower(s: Seq<char>) -> Seq<char>;

/// `str::to_lowercase`: the full Unicode lowercase mapping of `s`.
#[verifier::external_body]
fn to_lowercase(s: &str) -> (r: String)
    ensures
        r@ == unicode_lower(s@),
{
    s.to_lowercase()
}

/// Whether `a` is listed before `b` in a folder: folders before files, then
/// by lowercase name.
pub open spec fn sorts_before(a: NodeModel, b: NodeModel) -> bool {
    (is_dir(a) && !is_dir(b)) || (is_dir(a) == is_dir(b) && chars_lt(
        unicode_lower(a.name),
        unicode_lower(b.name),
    ))
}

/// Where `x` goes in an ordered run so that it follows everything it does
/// not sort before: after its equals, which keeps the order stable.
pub open spec fn insert_position(t: Seq<NodeModel>, x: NodeModel) -> int
    decreases t.len(),
{
    if t.len() == 0 || sorts_before(x, t[0]) {
        0
    } else {
        1 + insert_position(t.drop_first(), x)
    }
}

/// `s` stably ordered folders first, then by lowercase name.
pub open spec fn stable_sorted(s: Seq<NodeModel>) -> Seq<NodeModel>
    decreases s.len(),
{
    if s.len() == 0 {
        Seq::<NodeModel>::empty()
    } else {
        let t = stable_sorted(s.drop_last());
        t.insert(insert_position(t, s.last()), s.last())
    }
}

/// A node with every folder below it ordered and totalled: a folder's
/// contents are organized and stably ordered folders first, then by
/// lowercase name, and its facts are the sums over the files below it. A
/// file is unchanged.
pub open spec fn organized(m: NodeModel) -> NodeModel
    decreases m,
{
    if !is_dir(m) {
        m
    } else {
        NodeModel {
            name: m.name,
            path: m.path,
            kind: m.kind,
            metrics: metrics_of(tree_total(m)),
            children: stable_sorted(organize_all(m.children)),
        }
    }
}

/// Each of a run of nodes organized, in place.
pub open spec fn organize_all(s: Seq<NodeModel>) -> Seq<NodeModel>
    decreases s,
{
    if s.len() == 0 {
        Seq::<NodeModel>::empty()
    } else {
        organize_all(s.drop_last()).push(organized(s.last()))
    }
}

proof fn lemma_organize_all_index(s: Seq<NodeModel>)
    ensures
        organize_all(s).len() == s.len(),
        forall|j: int| 0 <= j < s.len() ==> #[trigger] organize_all(s)[j] == organized(s[j]),
    decreases s.len(),
{
    if s.len() > 0 {
        lemma_organize_all_index(s.drop_last());
    }
}

proof fn lemma_insert_position_bounds(t: Seq<NodeModel>, x: NodeModel)
    ensures
        0 <= insert_position(t, x) <= t.len(),
    decreases t.len(),
{
    if t.len() > 0 && !sorts_before(x, t[0]) {
        lemma_insert_position_bounds(t.drop_first(), x);
    }
}

proof fn lemma_stable_sorted_len(s: Seq<NodeModel>)
    ensures
        stable_sorted(s).len() == s.len(),
    decreases s.len(),
{
    if s.len() > 0 {
        lemma_stable_sorted_len(s.drop_last());
        lemma_insert_position_bounds(stable_sorted(s.drop_last()), s.last());
    }
}

proof fn lemma_total_nonneg(m: NodeModel)
    ensures
        nonneg(tree_total(m)),
    decreases m,
{
    if is_dir(m) {
        lemma_children_total_nonneg(m.children);
    }
}

proof fn lemma_children_total_nonneg(s: Seq<NodeModel>)
    ensures
        nonneg(children_total(s)),
    decreases s,
{
    if s.len() > 0 {
        lemma_children_total_nonneg(s.drop_last());
        lemma_total_nonneg(s.last());
    }
}

/// Putting one more node anywhere in a run adds its total.
proof fn lemma_children_total_insert(t: Seq<NodeModel>, p: int, x: NodeModel)
    requires
        0 <= p <= t.len(),
    ensures
        children_total(t.insert(p, x)) == plus(children_total(t), tree_total(x)),
    decreases t.len(),
{
    if p == t.len() {
        assert(t.insert(p, x) =~= t.push(x));
        assert(t.push(x).drop_last() =~= t);
    } else {
        lemma_children_total_insert(t.drop_last(), p, x);
        assert(t.insert(p, x).drop_last() =~= t.drop_last().insert(p, x));
        assert(t.insert(p, x).last() == t.last());
    }
}

proof fn lemma_stable_sorted_total(s: Seq<NodeModel>)
    ensures
        children_total(stable_sorted(s)) == children_total(s),
    decreases s.len(),
{
    if s.len() > 0 {
        lemma_stable_sorted_total(s.drop_last());
        let t = stable_sorted(s.drop_last());
        lemma_insert_position_bounds(t, s.last());
        lemma_children_total_insert(t, insert_position(t, s.last()), s.last());
    }
}

/// Organizing keeps every total.
proof fn lemma_organized_total(m: NodeModel)
    ensures
        tree_total(organized(m)) == tree_total(m),
        is_dir(organized(m)) == is_dir(m),
        organized(m).name == m.name,
    decreases m,
{
    if is_dir(m) {
        lemma_organize_all_total(m.children);
        lemma_stable_sorted_total(organize_all(m.children));
    }
}

proof fn lemma_organize_all_total(s: Seq<NodeModel>)
    ensures
        children_total(organize_all(s)) == children_total(s),
    decreases s,
{
    if s.len() > 0 {
        lemma_organize_all_total(s.drop_last());
        lemma_organized_total(s.last());
        assert(organize_all(s).drop_last() == organize_all(s.drop_last()));
    }
}

proof fn lemma_prefix_total_le(s: Seq<NodeModel>, i: int)
    requires
        0 <= i <= s.len(),
    ensures
        le(children_total(s.take(i)), children_total(s)),
    decreases s.len() - i,
{
    if i < s.len() {
        lemma_prefix_total_le(s, i + 1);
        assert(s.take(i + 1).drop_last() =~= s.take(i));
        lemma_total_nonneg(s[i]);
    } else {
        assert(s.take(i) =~= s);
    }
}

proof fn lemma_child_total_le(s: Seq<NodeModel>, i: int)
    requires
        0 <= i < s.len(),
    ensures
        le(tree_total(s[i]), children_total(s)),
{
    lemma_prefix_total_le(s, i + 1);
    assert(s.take(i + 1).drop_last() =~= s.take(i));
    lemma_children_total_nonneg(s.take(i));
}

/// How a node is ordered among its neighbours.
struct SortKey {
    folder: bool,
    lower: Vec<char>,
}

fn sort_key(n: &Node) -> (k: SortKey)
    ensures
        k.folder == is_dir(n@),
        k.lower@ == unicode_lower(n@.name),
{
    let lowered = to_lowercase(n.name.as_str());
    SortKey { folder: n.is_directory(), lower: chars_of(lowered.as_str()) }
}

fn key_before(a: &SortKey, b: &SortKey) -> (r: bool)
    ensures
        r == ((a.folder && !b.folder) || (a.folder == b.folder && chars_lt(a.lower@, b.lower@))),
{
    (a.folder && !b.folder) || (a.folder == b.folder && crate::aliases::chars_lt_exec(
        &a.lower,
        &b.lower,
    ))
}

/// Stably orders a folder's contents, folders first, then by lowercase name.
fn sort_children(children: &mut Vec<Node>)
    ensures
        Node::models(final(children)@) == stable_sorted(Node::models(old(children)@)),
{
    let ghost orig = Node::models(children@);
    proof {
        lemma_models_index(children@);
    }
    let mut sorted: Vec<Node> = Vec::new();
    let mut keys: Vec<SortKey> = Vec::new();
    let ghost mut taken: int = 0;
    assert(orig.take(0) =~= Seq::<NodeModel>::empty());
    assert(orig.skip(0) =~= orig);
    while children.len() > 0
        invariant
            0 <= taken <= orig.len(),
            Node::models(children@) == orig.skip(taken),
            children.len() == orig.len() - taken,
            Node::models(sorted@) == stable_sorted(orig.take(taken)),
            keys.len() == sorted.len(),
            forall|j: int| 0 <= j < keys.len() ==> (#[trigger] keys@[j]).folder == is_dir(sorted@[j]@)
                && keys@[j].lower@ == unicode_lower(sorted@[j]@.name),
        decreases children.len(),
    {
        proof {
            lemma_models_index(children@);
            lemma_models_index(sorted@);
        }
        let ghost rest = children@;
        let c = children.remove(0);
        assert(Node::models(rest)[0] == rest[0]@);
        assert(orig.skip(taken)[0] == orig[taken]);
        assert(c@ == orig[taken]);
        assert(children@ =~= rest.drop_first());
        assert(Node::models(children@) == orig.skip(taken + 1)) by {
            lemma_models_index(children@);
            lemma_models_index(rest);
            assert forall|j: int| 0 <= j < children.len() implies #[trigger] Node::models(children@)[j]
                == orig.skip(taken + 1)[j] by {
                assert(children@[j] == rest[j + 1]);
                assert(Node::models(rest)[j + 1] == rest[j + 1]@);
                assert(orig.skip(taken)[j + 1] == orig.skip(taken + 1)[j]);
            }
            assert(Node::models(children@) =~= orig.skip(taken + 1));
        }
        let k = sort_key(&c);
        let ghost t = Node::models(sorted@);
        let mut p: usize = 0;
        assert(t.skip(0) =~= t);
        while p < keys.len() && !key_before(&k, &keys[p])
            invariant
                p <= keys.len(),
                keys.len() == sorted.len(),
                t == Node::models(sorted@),
                t.len() == sorted.len(),
                forall|j: int| 0 <= j < sorted.len() ==> #[trigger] t[j] == sorted@[j]@,
                forall|j: int| 0 <= j < keys.len() ==> (#[trigger] keys@[j]).folder == is_dir(sorted@[j]@)
                    && keys@[j].lower@ == unicode_lower(sorted@[j]@.name),
                k.folder == is_dir(c@),
                k.lower@ == unicode_lower(c@.name),
                insert_position(t, c@) == p + insert_position(t.skip(p as int), c@),
            decreases keys.len() - p,
        {
            assert(t.skip(p as int)[0] == t[p as int]);
            assert(t.skip(p as int).drop_first() =~= t.skip(p + 1));
            p = p + 1;
        }
        proof {
            if p < keys.len() {
                assert(t.skip(p as int)[0] == t[p as int]);
            }
            assert(insert_position(t, c@) == p);
            assert(orig.take(taken + 1).drop_last() =~= orig.take(taken));
            assert(orig.take(taken + 1).last() == c@);
        }
        let ghost before = sorted@;
        sorted.insert(p, c);
        keys.insert(p, k);
        proof {
            lemma_models_index(sorted@);
            lemma_models_index(before);
            assert(Node::models(sorted@) =~= t.insert(p as int, c@));
            taken = taken + 1;
        }
    }
    assert(orig.take(taken) =~= orig);
    *children = sorted;
}

/// Orders every folder's contents, folders first and then by lowercase name,
/// and sets each folder's facts to the sums over the files below it; returns
/// the node's facts.
pub fn sort_and_aggregate(node: &mut Node) -> (m: Metrics)
    requires
        fits(tree_total(old(node)@)),
    ensures
        final(node)@ == organized(old(node)@),
        m == final(node)@.metrics,
    decreases old(node)@,
{
    if !node.is_directory() {
        return node.metrics;
    }
    let ghost orig = Node::models(node.children@);
    let ghost whole = node@;
    proof {
        lemma_models_index(node.children@);
    }
    let mut i: usize = 0;
    while i < node.children.len()
        invariant
            i <= node.children.len(),
            node.children.len() == orig.len(),
            whole.children == orig,
            whole == old(node)@,
            is_dir(whole),
            node.name@ == whole.name,
            node.relative_path@ == whole.path,
            node.kind == whole.kind,
            fits(children_total(orig)),
            forall|j: int| 0 <= j < i ==> #[trigger] node.children@[j]@ == organized(orig[j]),
            forall|j: int| i <= j < orig.len() ==> #[trigger] node.children@[j]@ == orig[j],
        decreases orig.len() - i,
    {
        let ghost before = node.children@;
        let mut c = node.children.remove(i);
        assert(c@ == orig[i as int]);
        proof {
            lemma_child_total_le(orig, i as int);
            lemma_total_nonneg(orig[i as int]);
            assert(old(node)@ == whole);
            assert(decreases_to!(whole => whole.children));
            assert(decreases_to!(whole.children => whole.children[i as int]));
            assert(decreases_to!(old(node)@ => c@));
        }
        sort_and_aggregate(&mut c);
        node.children.insert(i, c);
        assert forall|j: int| 0 <= j < orig.len() && j != i implies #[trigger] node.children@[j] == before[j] by {}
        i = i + 1;
    }
    proof {
        lemma_models_index(node.children@);
        lemma_organize_all_index(orig);
        assert(Node::models(node.children@) =~= organize_all(orig));
    }
    sort_children(&mut node.children);
    let ghost sorted = Node::models(node.children@);
    proof {
        lemma_organize_all_total(orig);
        lemma_stable_sorted_total(organize_all(orig));
        lemma_stable_sorted_len(organize_all(orig));
        lemma_models_index(node.children@);
        lemma_organize_all_index(orig);
        lemma_stable_sorted_members(organize_all(orig));
        assert forall|j: int| 0 <= j < sorted.len() implies (#[trigger] sorted[j]).metrics == metrics_of(
            tree_total(sorted[j]),
        ) by {
            let y = sorted[j];
            assert(organize_all(orig).contains(y));
            let q = choose|q: int| 0 <= q < organize_all(orig).len() && organize_all(orig)[q] == y;
            lemma_organized_metrics(orig[q]);
        }
    }
    let mut total = Metrics { bytes: 0, lines: 0, code_lines: 0, complexity: 0, file_count: 0, references: 0 };
    let mut k: usize = 0;
    while k < node.children.len()
        invariant
            k <= node.children.len(),
            sorted == Node::models(node.children@),
            sorted.len() == node.children.len(),
            whole == old(node)@,
            is_dir(whole),
            whole.children == orig,
            node.name@ == whole.name,
            node.relative_path@ == whole.path,
            node.kind == whole.kind,
            sorted == stable_sorted(organize_all(orig)),
            forall|j: int| 0 <= j < sorted.len() ==> #[trigger] sorted[j] == node.children@[j]@,
            forall|j: int| 0 <= j < sorted.len() ==> (#[trigger] sorted[j]).metrics == metrics_of(tree_total(sorted[j])),
            children_total(sorted) == children_total(orig),
            fits(children_total(orig)),
            total == metrics_of(children_total(sorted.take(k as int))),
            fits(children_total(sorted.take(k as int))),
        decreases node.children.len() - k,
    {
        proof {
            lemma_prefix_total_le(sorted, k + 1);
            assert(sorted.take(k + 1).drop_last() =~= sorted.take(k as int));
            lemma_total_nonneg(sorted[k as int]);
            lemma_children_total_nonneg(sorted.take(k as int));
        }
        let child_metrics = node.children[k].metrics;
        assert(child_metrics == metrics_of(tree_total(sorted[k as int])));
        total.add(child_metrics);
        k = k + 1;
    }
    assert(sorted.take(sorted.len() as int) =~= sorted);
    node.metrics = total;
    proof {
        let target = organized(old(node)@);
        assert(is_dir(whole));
        assert(tree_total(whole) == children_total(orig));
        assert(node@.name == target.name);
        assert(node@.path == target.path);
        assert(node@.kind == target.kind);
        assert(node@.metrics == target.metrics);
        assert(node@.children == target.children);
    }
    total
}

/// An organized node's facts are the totals below it.
proof fn lemma_organized_metrics(x: NodeModel)
    ensures
        organized(x).metrics == metrics_of(tree_total(organized(x))),
{
    lemma_organized_total(x);
}

/// Ordering a run moves its members and adds none.
proof fn lemma_stable_sorted_members(s: Seq<NodeModel>)
    ensures
        forall|j: int| 0 <= j < stable_sorted(s).len() ==> s.contains(#[trigger] stable_sorted(s)[j]),
    decreases s.len(),
{
    if s.len() > 0 {
        lemma_stable_sorted_members(s.drop_last());
        let t = stable_sorted(s.drop_last());
        let p = insert_position(t, s.last());
        lemma_insert_position_bounds(t, s.last());
        assert forall|j: int| 0 <= j < stable_sorted(s).len() implies s.contains(#[trigger] stable_sorted(s)[j]) by {
            if j < p {
                assert(stable_sorted(s)[j] == t[j]);
                let q = choose|q: int| 0 <= q < s.drop_last().len() && s.drop_last()[q] == t[j];
                assert(s[q] == t[j]);
            } else if j == p {
                assert(s[s.len() - 1] == s.last());
            } else {
                assert(stable_sorted(s)[j] == t[j - 1]);
                let q = choose|q: int| 0 <= q < s.drop_last().len() && s.drop_last()[q] == t[j - 1];
                assert(s[q] == t[j - 1]);
            }
        }
    }
}

/// Replacing one node in a run changes the run's total by the difference.
proof fn lemma_children_total_update(s: Seq<NodeModel>, i: int, y: NodeModel)
    requires
        0 <= i < s.len(),
    ensures
        plus(children_total(s.update(i, y)), tree_total(s[i])) == plus(children_total(s), tree_total(y)),
    decreases s.len(),
{
    if i == s.len() - 1 {
        assert(s.update(i, y).drop_last() =~= s.drop_last());
    } else {
        lemma_children_total_update(s.drop_last(), i, y);
        assert(s.update(i, y).drop_last() =~= s.drop_last().update(i, y));
    }
}

/// Hanging a file under a folder adds exactly the file's total to it.
pub proof fn law_inserting_a_file_adds_its_totals(parent: NodeModel, components: Seq<Seq<char>>, file: NodeModel)
    requires
        is_dir(parent),
    ensures
        is_dir(inserted(parent, components, file)),
        tree_total(inserted(parent, components, file)) == plus(tree_total(parent), tree_total(file)),
    decreases components.len(),
{
    if components.len() <= 1 {
        assert(parent.children.push(file).drop_last() =~= parent.children);
    } else {
        let i = folder_index(parent.children, components[0]);
        lemma_folder_index(parent.children, components[0]);
        if 0 <= i < parent.children.len() {
            let child = parent.children[i];
            law_inserting_a_file_adds_its_totals(child, components.drop_first(), file);
            lemma_children_total_update(parent.children, i, inserted(child, components.drop_first(), file));
        } else {
            let fresh = empty_dir(components[0], child_path(parent.path, components[0]));
            assert(children_total(fresh.children) == zero_totals());
            law_inserting_a_file_adds_its_totals(fresh, components.drop_first(), file);
            let grown = parent.children.push(inserted(fresh, components.drop_first(), file));
            assert(grown.drop_last() =~= parent.children);
        }
    }
}


// ---------------------------------------------------------------------------
// Laws
// ---------------------------------------------------------------------------

proof fn lemma_sorts_before_asymmetric(a: NodeModel, b: NodeModel)
    ensures
        !(sorts_before(a, b) && sorts_before(b, a)),
{
    if is_dir(a) == is_dir(b) && chars_lt(unicode_lower(a.name), unicode_lower(b.name)) && chars_lt(
        unicode_lower(b.name),
        unicode_lower(a.name),
    ) {
        lemma_chars_lt_transitive(unicode_lower(a.name), unicode_lower(b.name), unicode_lower(a.name));
        lemma_chars_lt_irreflexive(unicode_lower(a.name));
    }
}

proof fn lemma_sorts_before_transitive(a: NodeModel, b: NodeModel, c: NodeModel)
    requires
        sorts_before(a, b),
        sorts_before(b, c),
    ensures
        sorts_before(a, c),
{
    if is_dir(a) == is_dir(b) && is_dir(b) == is_dir(c) {
        lemma_chars_lt_transitive(unicode_lower(a.name), unicode_lower(b.name), unicode_lower(c.name));
    }
}

/// `x` sorts before nothing ahead of its place, and before the node it is
/// placed in front of.
proof fn lemma_insert_position_order(t: Seq<NodeModel>, x: NodeModel)
    ensures
        forall|k: int| 0 <= k < insert_position(t, x) ==> !sorts_before(x, #[trigger] t[k]),
        insert_position(t, x) < t.len() ==> sorts_before(x, t[insert_position(t, x)]),
    decreases t.len(),
{
    lemma_insert_position_bounds(t, x);
    if t.len() > 0 && !sorts_before(x, t[0]) {
        lemma_insert_position_order(t.drop_first(), x);
        lemma_insert_position_bounds(t.drop_first(), x);
        assert forall|k: int| 0 <= k < insert_position(t, x) implies !sorts_before(x, #[trigger] t[k]) by {
            if k > 0 {
                assert(t[k] == t.drop_first()[k - 1]);
            }
        }
        if insert_position(t, x) < t.len() {
            assert(t[insert_position(t, x)] == t.drop_first()[insert_position(t.drop_first(), x)]);
        }
    }
}

/// Ordering a folder's contents leaves no node after one it sorts before:
/// folders come first, then names in lowercase order, and nodes that tie
/// keep the order they had.
pub proof fn law_contents_are_ordered(s: Seq<NodeModel>)
    ensures
        forall|i: int, j: int|
            0 <= i < j < stable_sorted(s).len() ==> !sorts_before(
                #[trigger] stable_sorted(s)[j],
                #[trigger] stable_sorted(s)[i],
            ),
    decreases s.len(),
{
    if s.len() > 0 {
        law_contents_are_ordered(s.drop_last());
        let t = stable_sorted(s.drop_last());
        let x = s.last();
        let p = insert_position(t, x);
        lemma_insert_position_bounds(t, x);
        lemma_insert_position_order(t, x);
        let u = t.insert(p, x);
        assert(u == stable_sorted(s));
        assert forall|i: int, j: int| 0 <= i < j < u.len() implies !sorts_before(#[trigger] u[j], #[trigger] u[i]) by {
            if j < p {
                assert(u[i] == t[i] && u[j] == t[j]);
            } else if j == p {
                assert(u[i] == t[i]);
            } else if i == p {
                let k = j - 1;
                assert(u[j] == t[k]);
                if sorts_before(t[k], x) {
                    lemma_sorts_before_asymmetric(t[p], x);
                    if k > p {
                        lemma_sorts_before_transitive(t[k], x, t[p]);
                        assert(!sorts_before(t[k], t[p]));
                    }
                }
            } else if i < p {
                assert(u[i] == t[i] && u[j] == t[j - 1]);
            } else {
                assert(u[i] == t[i - 1] && u[j] == t[j - 1]);
            }
        }
    }
}

/// Ordering a folder's contents only moves them: the same nodes, each as
/// often as before.
pub proof fn law_ordering_keeps_every_node(s: Seq<NodeModel>)
    ensures
        stable_sorted(s).to_multiset() =~= s.to_multiset(),
    decreases s.len(),
{
    broadcast use vstd::seq_lib::group_to_multiset_ensures, vstd::multiset::group_multiset_axioms;

    if s.len() > 0 {
        law_ordering_keeps_every_node(s.drop_last());
        let t = stable_sorted(s.drop_last());
        let x = s.last();
        let p = insert_position(t, x);
        lemma_insert_position_bounds(t, x);
        let u = t.insert(p, x);
        assert(u.remove(p) =~= t);
        assert(u[p] == x);
        assert(s.drop_last().push(x) =~= s);
        assert(u.contains(x));
        assert(u.to_multiset() =~= t.to_multiset().insert(x));
    }
}

/// Ordering and totalling keeps every count: a node's totals are the same
/// afterwards, and a folder's own facts become the sums over the files
/// below it.
pub proof fn law_aggregation_keeps_totals(m: NodeModel)
    ensures
        tree_total(organized(m)) == tree_total(m),
        is_dir(m) ==> organized(m).metrics == metrics_of(tree_total(m)),
{
    lemma_organized_total(m);
}

} // verus!
