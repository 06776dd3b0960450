//! What a scan found, before any of it is given a place to stand: a tree of
//! files and folders with a few counted facts attached.

use vstd::prelude::*;

verus! {

/// The counted facts about a file, or the sum of them for a folder.
#[derive(Clone, Copy, Debug, PartialEq, Eq, Structural)]
pub struct Metrics {
    /// Size on disk.
    pub bytes: u64,
    /// Total lines, blank and commented ones included.
    pub lines: usize,
    /// Lines that are neither blank nor an obvious comment.
    pub code_lines: usize,
    /// A rough branch count.
    pub complexity: usize,
    /// Files at or below this node. A file counts one.
    pub file_count: usize,
    /// How many other files refer to this one, by import or include.
    pub references: usize,
}

/// All six facts at zero.
pub open spec fn zero_metrics() -> Metrics {
    Metrics { bytes: 0, lines: 0, code_lines: 0, complexity: 0, file_count: 0, references: 0 }
}

/// Field-by-field sum, in unbounded integers.
pub open spec fn metrics_sum_fits(a: Metrics, b: Metrics) -> bool {
    &&& a.bytes + b.bytes <= u64::MAX
    &&& a.lines + b.lines <= usize::MAX
    &&& a.code_lines + b.code_lines <= usize::MAX
    &&& a.complexity + b.complexity <= usize::MAX
    &&& a.file_count + b.file_count <= usize::MAX
    &&& a.references + b.references <= usize::MAX
}

/// The field-by-field sum of two sets of facts, where it fits.
pub open spec fn metrics_plus(a: Metrics, b: Metrics) -> Metrics {
    Metrics {
        bytes: (a.bytes + b.bytes) as u64,
        lines: (a.lines + b.lines) as usize,
        code_lines: (a.code_lines + b.code_lines) as usize,
        complexity: (a.complexity + b.complexity) as usize,
        file_count: (a.file_count + b.file_count) as usize,
        references: (a.references + b.references) as usize,
    }
}

impl Default for Metrics {
    fn default() -> (m: Self)
        ensures
            m == zero_metrics(),
    {
        Metrics { bytes: 0, lines: 0, code_lines: 0, complexity: 0, file_count: 0, references: 0 }
    }
}

impl Metrics {
    /// Folds a child's totals into this one.
    pub fn add(&mut self, other: Metrics)
        requires
            metrics_sum_fits(*old(self), other),
        ensures
            *final(self) == metrics_plus(*old(self), other),
    {
        self.bytes = self.bytes + other.bytes;
        self.lines = self.lines + other.lines;
        self.code_lines = self.code_lines + other.code_lines;
        self.complexity = self.complexity + other.complexity;
        self.file_count = self.file_count + other.file_count;
        self.references = self.references + other.references;
    }
}

/// What a file is for.
#[derive(Clone, Copy, Debug, PartialEq, Eq, Hash, Structural)]
pub enum Category {
    /// Source code and business logic.
    Source,
    /// Web and user interface code.
    Web,
    /// Tests and verification.
    Test,
    /// Documentation and project knowledge.
    Docs,
    /// Configuration, manifests, and project rules.
    Config,
    /// Data, schemas, queries, and protocols.
    Data,
    /// Images, fonts, audio, and other binary assets.
    Asset,
    /// Scripts, automation, and developer tooling.
    Script,
    /// Anything that fits nowhere else.
    Other,
}

/// Whether a node is a folder or a file.
#[derive(Clone, Copy, Debug, PartialEq, Eq, Structural)]
pub enum NodeKind {
    /// A folder, which becomes a ward or a neighbourhood.
    Directory,
    /// A file, which becomes a holding.
    File {
        /// What the file is for.
        category: Category,
    },
}

/// One file or folder in the scanned tree.
#[derive(Debug)]
pub struct Node {
    /// The final component of the path, which is what a label shows.
    pub name: String,
    /// Where this sits relative to the repository root, segments joined by `/`.
    pub relative_path: String,
    /// Whether this is a folder or a file.
    pub kind: NodeKind,
    /// This node's own facts, or the sum of its children's.
    pub metrics: Metrics,
    /// Contained nodes. Always empty for a file.
    pub children: Vec<Node>,
}

/// The mathematical picture of a [`Node`]: its text as characters and its
/// children as a sequence.
pub struct NodeModel {
    pub name: Seq<char>,
    pub path: Seq<char>,
    pub kind: NodeKind,
    pub metrics: Metrics,
    pub children: Seq<NodeModel>,
}

impl Node {
    /// The node as a mathematical value.
    pub open spec fn model(self) -> NodeModel
        decreases self,
    {
        NodeModel {
            name: self.name@,
            path: self.relative_path@,
            kind: self.kind,
            metrics: self.metrics,
            children: Node::models(self.children@),
        }
    }

    /// A sequence of nodes as mathematical values.
    pub open spec fn models(nodes: Seq<Node>) -> Seq<NodeModel>
        decreases nodes,
    {
        if nodes.len() == 0 {
            Seq::<NodeModel>::empty()
        } else {
            Node::models(nodes.drop_last()).push(nodes.last().model())
        }
    }
}

impl View for Node {
    type V = NodeModel;

    open spec fn view(&self) -> NodeModel {
        self.model()
    }
}

/// The models of a sequence of nodes line up with the nodes one for one.
pub proof fn lemma_models_index(nodes: Seq<Node>)
    ensures
        Node::models(nodes).len() == nodes.len(),
        forall|i: int| 0 <= i < nodes.len() ==> #[trigger] Node::models(nodes)[i] == nodes[i]@,
    decreases nodes.len(),
{
    if nodes.len() > 0 {
        lemma_models_index(nodes.drop_last());
    }
}

impl Clone for Node {
    /// A copy of the whole subtree.
    fn clone(&self) -> (r: Self)
        ensures
            r@ == self@,
        decreases self,
    {
        let mut children: Vec<Node> = Vec::new();
        let mut i: usize = 0;
        while i < self.children.len()
            invariant
                i <= self.children.len(),
                Node::models(children@) == Node::models(self.children@).take(i as int),
            decreases self.children.len() - i,
        {
            proof {
                lemma_models_index(self.children@);
                lemma_models_index(children@);
            }
            let copy = self.children[i].clone();
            let ghost before = children@;
            children.push(copy);
            proof {
                lemma_models_index(children@);
                assert(children@.drop_last() =~= before);
                assert(Node::models(children@) =~= Node::models(self.children@).take(i + 1));
            }
            i = i + 1;
        }
        proof {
            lemma_models_index(self.children@);
            assert(Node::models(self.children@).take(self.children.len() as int) =~= Node::models(self.children@));
        }
        Node {
            name: self.name.clone(),
            relative_path: self.relative_path.clone(),
            kind: self.kind,
            metrics: self.metrics,
            children,
        }
    }
}

/// Whether a modelled node is a folder.
pub open spec fn is_dir(m: NodeModel) -> bool {
    m.kind == NodeKind::Directory
}

/// An empty folder, as a model.
pub open spec fn empty_dir(name: Seq<char>, path: Seq<char>) -> NodeModel {
    NodeModel {
        name,
        path,
        kind: NodeKind::Directory,
        metrics: zero_metrics(),
        children: Seq::<NodeModel>::empty(),
    }
}

impl Node {
    /// An empty folder node.
    pub fn directory(name: String, relative_path: String) -> (n: Self)
        ensures
            n@ == empty_dir(name@, relative_path@),
    {
        let n = Node {
            name,
            relative_path,
            kind: NodeKind::Directory,
            metrics: Metrics::default(),
            children: Vec::new(),
        };
        assert(Node::models(n.children@) =~= Seq::<NodeModel>::empty());
        n
    }

    /// Whether this node is a folder.
    pub fn is_directory(&self) -> (r: bool)
        ensures
            r == is_dir(self@),
    {
        match self.kind {
            NodeKind::Directory => true,
            NodeKind::File { .. } => false,
        }
    }
}

/// A scanned repository.
#[derive(Debug)]
pub struct Repository {
    /// The root folder, with the whole tree hanging off it.
    pub root: Node,
    /// Where the repository was read from.
    pub source_path: String,
    /// How many files the scan left out to stay within
    /// [`ScanOptions::max_files`].
    pub omitted_files: usize,
}

/// How much of a repository to read.
#[derive(Clone, Copy, Debug)]
pub struct ScanOptions {
    /// The most files to keep. Larger files are kept in preference to smaller
    /// ones, so a truncated scan still shows the shape of the codebase; the
    /// rest are counted but not read.
    pub max_files: usize,
    /// Whether to include files that ignore rules would normally hide. Hard
    /// exclusions such as `.git` and `target` still apply.
    pub include_ignored: bool,
}

impl Default for ScanOptions {
    fn default() -> (o: Self)
        ensures
            o.max_files == 1500,
            !o.include_ignored,
    {
        ScanOptions { max_files: 1500, include_ignored: false }
    }
}

} // verus!
