//! The syntax tree that the rules read: an arena of nodes, each with its
//! kind, its byte span, its parent and its children, all by index.

use vstd::prelude::*;
use crate::lint::text::str_eq;

verus! {

/// The kinds of node that the rules tell apart. Every other kind of the
/// grammar is `Other`.
#[derive(Clone, Copy, Debug, PartialEq, Eq, Structural)]
pub enum NodeKind {
    VariableDeclaration,
    ConstantDeclaration,
    OperatorDefinition,
    Identifier,
    IdentifierRef,
    Other,
}

impl NodeKind {
    /// The kind that a grammar label stands for.
    pub open spec fn of_label(label: Seq<char>) -> NodeKind {
        if label == "variable_declaration"@ {
            NodeKind::VariableDeclaration
        } else if label == "constant_declaration"@ {
            NodeKind::ConstantDeclaration
        } else if label == "operator_definition"@ {
            NodeKind::OperatorDefinition
        } else if label == "identifier"@ {
            NodeKind::Identifier
        } else if label == "identifier_ref"@ {
            NodeKind::IdentifierRef
        } else {
            NodeKind::Other
        }
    }

    /// Reads a grammar label.
    pub fn from_label(label: &str) -> (kind: NodeKind)
        ensures
            kind == NodeKind::of_label(label@),
    {
        if str_eq(label, "variable_declaration") {
            NodeKind::VariableDeclaration
        } else if str_eq(label, "constant_declaration") {
            NodeKind::ConstantDeclaration
        } else if str_eq(label, "operator_definition") {
            NodeKind::OperatorDefinition
        } else if str_eq(label, "identifier") {
            NodeKind::Identifier
        } else if str_eq(label, "identifier_ref") {
            NodeKind::IdentifierRef
        } else {
            NodeKind::Other
        }
    }

    /// Whether a node of this kind brings variable or constant names into
    /// scope.
    pub open spec fn declares(self) -> bool {
        self == NodeKind::VariableDeclaration || self == NodeKind::ConstantDeclaration
    }

    /// Whether a node of this kind is a name: an identifier or a reference
    /// to one.
    pub open spec fn names(self) -> bool {
        self == NodeKind::Identifier || self == NodeKind::IdentifierRef
    }

    /// Whether a node of this kind is a declaration.
    pub fn is_declaration(self) -> (r: bool)
        ensures
            r == self.declares(),
    {
        match self {
            NodeKind::VariableDeclaration => true,
            NodeKind::ConstantDeclaration => true,
            _ => false,
        }
    }

    /// Whether a node of this kind is an identifier or a reference to one.
    pub fn is_identifier_use(self) -> (r: bool)
        ensures
            r == self.names(),
    {
        match self {
            NodeKind::Identifier => true,
            NodeKind::IdentifierRef => true,
            _ => false,
        }
    }
}

/// One node: its kind, the bytes it spans, its parent, and its children in
/// order. Parent and children are indices into the tree's arena.
#[derive(Debug)]
pub struct SyntaxNode {
    pub kind: NodeKind,
    pub start_byte: usize,
    pub end_byte: usize,
    pub parent: Option<usize>,
    pub children: Vec<usize>,
}

/// The mathematical value of a [`SyntaxNode`].
pub struct SyntaxNodeView {
    pub kind: NodeKind,
    pub start_byte: usize,
    pub end_byte: usize,
    pub parent: Option<usize>,
    pub children: Seq<usize>,
}

impl View for SyntaxNode {
    type V = SyntaxNodeView;

    open spec fn view(&self) -> SyntaxNodeView {
        SyntaxNodeView {
            kind: self.kind,
            start_byte: self.start_byte,
            end_byte: self.end_byte,
            parent: self.parent,
            children: self.children@,
        }
    }
}

/// A syntax tree. The root, if there is one, is node 0.
#[derive(Debug)]
pub struct SyntaxTree {
    pub nodes: Vec<SyntaxNode>,
}

/// The mathematical value of a [`SyntaxTree`].
pub struct SyntaxTreeView {
    pub nodes: Seq<SyntaxNodeView>,
}

impl View for SyntaxTree {
    type V = SyntaxTreeView;

    open spec fn view(&self) -> SyntaxTreeView {
        SyntaxTreeView { nodes: self.nodes@.map_values(|n: SyntaxNode| n@) }
    }
}

impl SyntaxTreeView {
    /// The arena describes a tree: every span runs forward; a parent comes
    /// before its node in the arena; the children of a node come after it,
    /// in increasing order, and name it as their parent; the root has no
    /// parent.
    pub open spec fn wf(&self) -> bool {
        &&& self.nodes.len() > 0 ==> self.nodes[0].parent is None
        &&& forall|i: int|
            0 <= i < self.nodes.len() ==> ((#[trigger] self.nodes[i]).parent matches Some(p)
                ==> p < i)
        &&& forall|i: int|
            0 <= i < self.nodes.len() ==> (#[trigger] self.nodes[i]).start_byte
                <= self.nodes[i].end_byte
        &&& forall|i: int, k: int|
            0 <= i < self.nodes.len() && 0 <= k < self.nodes[i].children.len() ==> {
                &&& i < (#[trigger] self.nodes[i].children[k]) < self.nodes.len()
                &&& self.nodes[self.nodes[i].children[k] as int].parent == Some(i as usize)
            }
        &&& forall|i: int, k: int, l: int|
            0 <= i < self.nodes.len() && 0 <= k < l < self.nodes[i].children.len()
                ==> self.nodes[i].children[k] < self.nodes[i].children[l]
    }

    /// Every span ends within a text of `len` bytes.
    pub open spec fn fits(&self, len: nat) -> bool {
        forall|i: int| 0 <= i < self.nodes.len() ==> (#[trigger] self.nodes[i]).end_byte <= len
    }

    /// Node `i` and its descendants, each node before its children and the
    /// children in order.
    pub open spec fn subtree(&self, i: usize) -> Seq<usize>
        decreases self.nodes.len() - i, self.nodes[i as int].children.len() + 1,
    {
        if i < self.nodes.len() {
            seq![i] + self.forest(i, 0)
        } else {
            seq![]
        }
    }

    /// The subtrees of the children of node `i` from the `k`-th on, one
    /// after the other.
    pub open spec fn forest(&self, i: usize, k: nat) -> Seq<usize>
        decreases self.nodes.len() - i, self.nodes[i as int].children.len() - k,
    {
        if i < self.nodes.len() && k < self.nodes[i as int].children.len() {
            let child = self.nodes[i as int].children[k as int];
            if i < child < self.nodes.len() {
                self.subtree(child) + self.forest(i, k + 1)
            } else {
                self.forest(i, k + 1)
            }
        } else {
            seq![]
        }
    }

    /// All nodes under the root, in pre-order.
    pub open spec fn preorder(&self) -> Seq<usize> {
        self.subtree(0)
    }

    /// Those of the first `k` children of node `i` that are identifiers, in
    /// order.
    pub open spec fn identifier_children_among(&self, i: usize, k: nat) -> Seq<usize>
        decreases k,
    {
        if k == 0 || i >= self.nodes.len() || k > self.nodes[i as int].children.len() {
            seq![]
        } else {
            let before = self.identifier_children_among(i, (k - 1) as nat);
            let child = self.nodes[i as int].children[k - 1];
            if child < self.nodes.len() && self.nodes[child as int].kind == NodeKind::Identifier {
                before.push(child)
            } else {
                before
            }
        }
    }

    /// The children of node `i` that are identifiers, in order.
    pub open spec fn identifier_children(&self, i: usize) -> Seq<usize> {
        if i < self.nodes.len() {
            self.identifier_children_among(i, self.nodes[i as int].children.len())
        } else {
            seq![]
        }
    }

    /// Every index that a traversal lists is a node of the arena.
    pub proof fn lemma_subtree_in_arena(&self, i: usize)
        ensures
            forall|j: int|
                0 <= j < self.subtree(i).len() ==> (#[trigger] self.subtree(i)[j])
                    < self.nodes.len(),
        decreases self.nodes.len() - i, self.nodes[i as int].children.len() + 1,
    {
        if i < self.nodes.len() {
            self.lemma_forest_in_arena(i, 0);
            let rest = self.forest(i, 0);
            assert forall|j: int| 0 <= j < self.subtree(i).len() implies (#[trigger] self.subtree(
                i,
            )[j]) < self.nodes.len() by {
                if j > 0 {
                    assert(self.subtree(i)[j] == rest[j - 1]);
                }
            }
        }
    }

    /// Every index that a traversal of some of a node's children lists is a
    /// node of the arena.
    pub proof fn lemma_forest_in_arena(&self, i: usize, k: nat)
        ensures
            forall|j: int|
                0 <= j < self.forest(i, k).len() ==> (#[trigger] self.forest(i, k)[j])
                    < self.nodes.len(),
        decreases self.nodes.len() - i, self.nodes[i as int].children.len() - k,
    {
        if i < self.nodes.len() && k < self.nodes[i as int].children.len() {
            let child = self.nodes[i as int].children[k as int];
            self.lemma_forest_in_arena(i, k + 1);
            let rest = self.forest(i, k + 1);
            if i < child < self.nodes.len() {
                self.lemma_subtree_in_arena(child);
                let first = self.subtree(child);
                assert forall|j: int| 0 <= j < self.forest(i, k).len() implies (
                #[trigger] self.forest(i, k)[j]) < self.nodes.len() by {
                    if j < first.len() {
                        assert(self.forest(i, k)[j] == first[j]);
                    } else {
                        assert(self.forest(i, k)[j] == rest[j - first.len()]);
                    }
                }
            }
        }
    }
}

impl SyntaxTree {
    /// Node `i`.
    pub fn node(&self, i: usize) -> (node: &SyntaxNode)
        requires
            i < self@.nodes.len(),
        ensures
            node@ == self@.nodes[i as int],
    {
        &self.nodes[i]
    }

    /// The number of nodes.
    pub fn len(&self) -> (n: usize)
        ensures
            n == self@.nodes.len(),
    {
        self.nodes.len()
    }

    /// Lists the children of node `i` that are identifiers, in order.
    pub fn child_identifiers(&self, i: usize) -> (idents: Vec<usize>)
        requires
            self@.wf(),
            i < self.nodes@.len(),
        ensures
            idents@ == self@.identifier_children(i),
            forall|j: int| 0 <= j < idents@.len() ==> (#[trigger] idents@[j]) < self.nodes@.len(),
    {
        let node = self.node(i);
        let mut idents: Vec<usize> = Vec::new();
        let mut k: usize = 0;
        while k < node.children.len()
            invariant
                self@.wf(),
                i < self.nodes@.len(),
                node@ == self@.nodes[i as int],
                k <= node.children@.len(),
                idents@ == self@.identifier_children_among(i, k as nat),
                forall|j: int|
                    0 <= j < idents@.len() ==> (#[trigger] idents@[j]) < self.nodes@.len(),
            decreases node.children@.len() - k,
        {
            let child = node.children[k];
            if self.node(child).kind == NodeKind::Identifier {
                idents.push(child);
            }
            k += 1;
        }
        idents
    }

    /// Appends node `i` and its descendants to `out`, in pre-order.
    fn visit(&self, i: usize, out: &mut Vec<usize>)
        requires
            self@.wf(),
            i < self.nodes@.len(),
        ensures
            final(out)@ == old(out)@ + self@.subtree(i),
        decreases self.nodes@.len() - i,
    {
        let ghost before = out@;
        out.push(i);
        let node = self.node(i);
        let mut k: usize = 0;
        assert(out@ + self@.forest(i, 0) =~= before + self@.subtree(i));
        while k < node.children.len()
            invariant
                self@.wf(),
                i < self.nodes@.len(),
                node@ == self@.nodes[i as int],
                k <= node.children@.len(),
                out@ + self@.forest(i, k as nat) == before + self@.subtree(i),
            decreases node.children@.len() - k,
        {
            let child = node.children[k];
            let ghost sofar = out@;
            self.visit(child, out);
            proof {
                assert(self@.forest(i, k as nat) == self@.subtree(child) + self@.forest(
                    i,
                    (k + 1) as nat,
                ));
                assert(out@ + self@.forest(i, (k + 1) as nat) =~= sofar + self@.forest(
                    i,
                    k as nat,
                ));
            }
            k += 1;
        }
        assert(out@ + self@.forest(i, k as nat) =~= out@);
    }

    /// Lists the nodes under the root in pre-order: each node before its
    /// children, the children in order.
    pub fn traverse(&self) -> (order: Vec<usize>)
        requires
            self@.wf(),
        ensures
            order@ == self@.preorder(),
            forall|j: int| 0 <= j < order@.len() ==> (#[trigger] order@[j]) < self.nodes@.len(),
    {
        let mut order: Vec<usize> = Vec::new();
        if self.nodes.len() > 0 {
            self.visit(0, &mut order);
        }
        proof {
            self@.lemma_subtree_in_arena(0);
            assert(order@ =~= self@.preorder());
        }
        order
    }
}

/// One node as a parser lists it: the grammar's label for its kind, its
/// depth under the root, and the bytes it spans.
#[derive(Debug)]
pub struct NodeRecord {
    pub label: String,
    pub depth: usize,
    pub start_byte: usize,
    pub end_byte: usize,
}

/// The mathematical value of a [`NodeRecord`].
pub struct NodeRecordView {
    pub label: Seq<char>,
    pub depth: usize,
    pub start_byte: usize,
    pub end_byte: usize,
}

impl View for NodeRecord {
    type V = NodeRecordView;

    open spec fn view(&self) -> NodeRecordView {
        NodeRecordView {
            label: self.label@,
            depth: self.depth,
            start_byte: self.start_byte,
            end_byte: self.end_byte,
        }
    }
}

/// The values of a sequence of node records, in order.
pub open spec fn records_view(records: Seq<NodeRecord>) -> Seq<NodeRecordView> {
    records.map_values(|r: NodeRecord| r@)
}

/// Whether record `j` can stand where it does in a pre-order listing of a
/// tree over a text of `text_len` bytes: its span runs forward and ends
/// within the text; the first record is the root, at depth 0; every other
/// lies below the root and at most one level below the record before it.
pub open spec fn record_fits(records: Seq<NodeRecordView>, text_len: nat, j: int) -> bool {
    &&& records[j].start_byte <= records[j].end_byte <= text_len
    &&& j == 0 ==> records[j].depth == 0
    &&& j > 0 ==> 1 <= records[j].depth <= records[j - 1].depth + 1
}

/// Whether `records` is a pre-order listing of a tree over a text of
/// `text_len` bytes.
pub open spec fn is_listing(records: Seq<NodeRecordView>, text_len: nat) -> bool {
    forall|j: int| 0 <= j < records.len() ==> record_fits(records, text_len, j)
}

/// The last record before `j` that lies at depth `depth`, or -1.
pub open spec fn nearest_at_depth(records: Seq<NodeRecordView>, j: int, depth: int) -> int
    decreases j,
{
    if j <= 0 {
        -1
    } else if records[j - 1].depth == depth {
        j - 1
    } else {
        nearest_at_depth(records, j - 1, depth)
    }
}

/// The parent of record `j` in a pre-order listing: the last record before
/// it that lies one level higher.
pub open spec fn parent_in_listing(records: Seq<NodeRecordView>, j: int) -> Option<usize> {
    let nearest = nearest_at_depth(records, j, records[j].depth - 1);
    if records[j].depth == 0 || nearest < 0 {
        None
    } else {
        Some(nearest as usize)
    }
}

/// The children of record `i` among the first `upto` records of a
/// pre-order listing: those whose parent it is, in order.
pub open spec fn children_in_listing(records: Seq<NodeRecordView>, i: int, upto: int) -> Seq<usize>
    decreases upto,
{
    if upto <= 0 {
        seq![]
    } else {
        let before = children_in_listing(records, i, upto - 1);
        if parent_in_listing(records, upto - 1) == Some(i as usize) {
            before.push((upto - 1) as usize)
        } else {
            before
        }
    }
}

/// The tree that a pre-order listing describes: node for record, with the
/// record's kind and span, the parent that the depths give, and as
/// children the nodes whose parent it is.
pub open spec fn tree_of(records: Seq<NodeRecordView>) -> SyntaxTreeView {
    SyntaxTreeView {
        nodes: Seq::new(
            records.len(),
            |j: int|
                SyntaxNodeView {
                    kind: NodeKind::of_label(records[j].label),
                    start_byte: records[j].start_byte,
                    end_byte: records[j].end_byte,
                    parent: parent_in_listing(records, j),
                    children: children_in_listing(records, j, records.len() as int),
                },
        ),
    }
}

/// The record found at a depth lies before the place the search began.
pub proof fn lemma_nearest_is_before(records: Seq<NodeRecordView>, j: int, depth: int)
    requires
        0 <= j,
    ensures
        -1 <= nearest_at_depth(records, j, depth) < j,
    decreases j,
{
    if j > 0 && records[j - 1].depth != depth {
        lemma_nearest_is_before(records, j - 1, depth);
    }
}

/// A record has no children among the records up to itself.
pub proof fn lemma_children_come_later(records: Seq<NodeRecordView>, i: int, upto: int)
    requires
        0 <= i <= usize::MAX,
        upto <= i + 1,
    ensures
        children_in_listing(records, i, upto) == Seq::<usize>::empty(),
    decreases upto,
{
    if upto > 0 {
        lemma_children_come_later(records, i, upto - 1);
        lemma_nearest_is_before(records, upto - 1, records[upto - 1].depth - 1);
    }
}

impl SyntaxTree {
    /// Builds the tree that a pre-order listing describes, for a text of
    /// `text_len` bytes. There is a tree exactly when the listing is one.
    pub fn from_records(records: &Vec<NodeRecord>, text_len: usize) -> (built: Option<SyntaxTree>)
        ensures
            built is Some <==> is_listing(records_view(records@), text_len as nat),
            built matches Some(tree) ==> {
                &&& tree@ == tree_of(records_view(records@))
                &&& tree@.wf()
                &&& tree@.fits(text_len as nat)
            },
    {
        let ghost listed = records_view(records@);
        let mut nodes: Vec<SyntaxNode> = Vec::new();
        let mut path: Vec<usize> = Vec::new();
        let mut j: usize = 0;
        while j < records.len()
            invariant
                listed == records_view(records@),
                j <= records@.len(),
                nodes@.len() == j,
                forall|i: int| 0 <= i < j ==> record_fits(listed, text_len as nat, i),
                forall|i: int|
                    0 <= i < j ==> {
                        &&& (#[trigger] nodes@[i]).kind == NodeKind::of_label(listed[i].label)
                        &&& nodes@[i].start_byte == listed[i].start_byte
                        &&& nodes@[i].end_byte == listed[i].end_byte
                        &&& nodes@[i].parent == parent_in_listing(listed, i)
                        &&& nodes@[i].parent matches Some(p) ==> p < i
                        &&& record_fits(listed, text_len as nat, i)
                    },
                forall|i: int, k: int|
                    0 <= i < j && 0 <= k < nodes@[i].children@.len() ==> {
                        &&& i < (#[trigger] nodes@[i].children@[k]) < j
                        &&& nodes@[nodes@[i].children@[k] as int].parent == Some(i as usize)
                    },
                forall|i: int, k: int, l: int|
                    0 <= i < j && 0 <= k < l < nodes@[i].children@.len() ==> nodes@[i].children@[k]
                        < nodes@[i].children@[l],
                forall|i: int|
                    0 <= i < j ==> (#[trigger] nodes@[i]).children@ == children_in_listing(
                        listed,
                        i,
                        j as int,
                    ),
                j == 0 ==> path@.len() == 0,
                j > 0 ==> path@.len() == listed[j - 1].depth + 1,
                forall|d: int|
                    0 <= d < path@.len() ==> (#[trigger] path@[d]) == nearest_at_depth(
                        listed,
                        j as int,
                        d,
                    ) && path@[d] < j,
            decreases records@.len() - j,
        {
            let record = &records[j];
            assert(listed[j as int] == record@);
            let depth = record.depth;
            let sound = record.start_byte <= record.end_byte && record.end_byte <= text_len && (if j
                == 0 {
                depth == 0
            } else {
                1 <= depth && depth <= path.len()
            });
            if !sound {
                assert(!record_fits(listed, text_len as nat, j as int));
                return None;
            }
            let parent = if depth == 0 {
                None
            } else {
                Some(path[depth - 1])
            };
            let ghost old_nodes = nodes@;
            let ghost old_path = path@;
            nodes.push(
                SyntaxNode {
                    kind: NodeKind::from_label(record.label.as_str()),
                    start_byte: record.start_byte,
                    end_byte: record.end_byte,
                    parent,
                    children: Vec::new(),
                },
            );
            proof {
                lemma_children_come_later(listed, j as int, j + 1);
                if depth > 0 {
                    lemma_nearest_is_before(listed, j as int, depth - 1);
                }
            }
            match parent {
                Some(p) => {
                    nodes[p].children.push(j);
                    proof {
                        let kids = old_nodes[p as int].children@;
                        assert(nodes@[p as int].children@ == kids.push(j));
                        assert(forall|k: int|
                            0 <= k < kids.len() ==> kids[k] == nodes@[p as int].children@[k]);
                        assert(nodes@[p as int].children@[kids.len() as int] == j);
                    }
                },
                None => {},
            }
            assert forall|i: int| 0 <= i < j + 1 implies (#[trigger] nodes@[i]).children@
                == children_in_listing(listed, i, j + 1) by {
                if i < j {
                    assert(old_nodes[i].children@ == children_in_listing(listed, i, j as int));
                }
            }
            path.truncate(depth);
            path.push(j);
            proof {
                assert forall|d: int| 0 <= d < path@.len() implies (#[trigger] path@[d])
                    == nearest_at_depth(listed, j + 1, d) && path@[d] < j + 1 by {
                    if d < depth {
                        assert(path@[d] == old_path[d]);
                    }
                }
            }
            j += 1;
        }
        let tree = SyntaxTree { nodes };
        proof {
            assert(tree@.nodes.len() == nodes@.len());
            assert(forall|i: int| 0 <= i < nodes@.len() ==> tree@.nodes[i] == nodes@[i]@);
            assert(tree@.wf());
            assert(tree@.nodes =~= tree_of(listed).nodes);
        }
        Some(tree)
    }
}

} // verus!
