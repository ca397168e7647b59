//! The TLA+ parser: tree-sitter with the TLA+ grammar. What tree-sitter
//! returns is taken on trust; this module turns it into a listing of plain
//! node records, from which the syntax tree is built and checked.

use vstd::prelude::*;
use vstd::utf8::encode_utf8;
use crate::lint::syntax::{
    is_listing, records_view, tree_of, NodeRecord, NodeRecordView, SyntaxTree, SyntaxTreeView,
};

verus! {

/// tree-sitter's parser, carried as an opaque value.
#[verifier::external_type_specification]
#[verifier::external_body]
pub struct ExParser(tree_sitter::Parser);

/// tree-sitter's syntax tree, carried as an opaque value. What it holds is
/// read through [`tree_listing`].
#[verifier::external_type_specification]
#[verifier::external_body]
pub struct ExTree(tree_sitter::Tree);

/// Why the TLA+ grammar could not be given to a parser.
#[derive(Debug, PartialEq, Eq)]
pub enum ParserError {
    /// The grammar was generated for a version of tree-sitter that this one
    /// does not read.
    Version(usize),
    /// The grammar cannot be used for parsing.
    NotParseable,
}

/// A tree-sitter parser that holds the TLA+ grammar.
pub struct TlaParser {
    parser: tree_sitter::Parser,
}

/// The nodes of a tree-sitter tree, in the order in which tree-sitter
/// numbers the descendants of the root: for each its kind, its depth under
/// the root and its byte span.
pub uninterp spec fn tree_listing(tree: &tree_sitter::Tree) -> Seq<NodeRecordView>;

/// `Node::descendant_count` of the root node: the number of nodes of the
/// tree, the root included. The contract names that number as the length
/// of the tree's listing.
#[verifier::external_body]
fn node_count(tree: &tree_sitter::Tree) -> (n: usize)
    ensures
        n == tree_listing(tree).len(),
{
    tree.root_node().descendant_count()
}

/// `TreeCursor::goto_descendant` on a cursor at the root, then `Node::kind`,
/// `TreeCursor::depth`, `Node::start_byte` and `Node::end_byte` of the node
/// reached. The contract names what is read as entry `i` of the tree's
/// listing; it says nothing of what the entry holds.
#[verifier::external_body]
fn node_at(tree: &tree_sitter::Tree, i: usize) -> (record: NodeRecord)
    requires
        i < tree_listing(tree).len(),
    ensures
        record@ == tree_listing(tree)[i as int],
{
    let mut cursor = tree.walk();
    cursor.goto_descendant(i);
    let node = cursor.node();
    NodeRecord {
        label: node.kind().to_string(),
        depth: cursor.depth() as usize,
        start_byte: node.start_byte(),
        end_byte: node.end_byte(),
    }
}

/// Lists the nodes of a tree-sitter tree as plain records.
pub fn list_nodes(tree: &tree_sitter::Tree) -> (records: Vec<NodeRecord>)
    ensures
        records_view(records@) == tree_listing(tree),
{
    let n = node_count(tree);
    let mut records: Vec<NodeRecord> = Vec::new();
    let mut i: usize = 0;
    while i < n
        invariant
            n == tree_listing(tree).len(),
            i <= n,
            records_view(records@) == tree_listing(tree).take(i as int),
        decreases n - i,
    {
        let record = node_at(tree, i);
        let ghost before = records_view(records@);
        records.push(record);
        assert(records_view(records@) =~= before.push(record@));
        assert(tree_listing(tree).take(i + 1) =~= before.push(record@));
        i += 1;
    }
    assert(tree_listing(tree).take(n as int) =~= tree_listing(tree));
    records
}

/// The syntax tree that a parse gave, for a text of `text_len` bytes: the
/// tree that the listing of the parser's tree describes. There is none
/// where the parser returned no tree, or a tree whose listing does not fit
/// the text.
pub open spec fn built_from(parsed: Option<tree_sitter::Tree>, text_len: nat) -> Option<
    SyntaxTreeView,
> {
    match parsed {
        Some(t) => if is_listing(tree_listing(&t), text_len) {
            Some(tree_of(tree_listing(&t)))
        } else {
            None
        },
        None => None,
    }
}

/// Builds the syntax tree from what a parse gave, for a text of `text_len`
/// bytes.
pub fn build_syntax_tree(parsed: Option<tree_sitter::Tree>, text_len: usize) -> (built: Option<
    SyntaxTree,
>)
    ensures
        match built {
            Some(tree) => built_from(parsed, text_len as nat) == Some(tree@) && tree@.wf()
                && tree@.fits(text_len as nat),
            None => built_from(parsed, text_len as nat) is None,
        },
{
    match parsed {
        Some(t) => {
            let records = list_nodes(&t);
            SyntaxTree::from_records(&records, text_len)
        },
        None => None,
    }
}

impl TlaParser {
    /// `Parser::new`, then `Parser::set_language` with the TLA+ grammar of
    /// tree-sitter-tlaplus. Nothing is promised of the outcome: whether the
    /// grammar is accepted is for tree-sitter to say.
    #[verifier::external_body]
    pub fn new() -> (made: Result<TlaParser, ParserError>) {
        let mut parser = tree_sitter::Parser::new();
        match parser.set_language(&tree_sitter_tlaplus::LANGUAGE.into()) {
            Ok(()) => Ok(TlaParser { parser }),
            Err(tree_sitter::LanguageError::Version(v)) => Err(ParserError::Version(v)),
            Err(tree_sitter::LanguageError::NotParseable) => Err(ParserError::NotParseable),
        }
    }

    /// `Parser::parse` of the text, with no earlier tree. Nothing is
    /// promised of the outcome: the grammar's scanner asks the C library
    /// which characters are letters and which are spaces, so the same text
    /// need not give the same tree in every process.
    #[verifier::external_body]
    pub fn parse(&mut self, source: &str) -> (tree: Option<tree_sitter::Tree>) {
        self.parser.parse(source, None)
    }

    /// Parses a text and builds its syntax tree. There is none where the
    /// parser returns no tree, or a tree whose nodes do not fit the text.
    /// A tree that comes out is the tree of a listing that fits the text.
    pub fn syntax_tree(&mut self, source: &str) -> (built: Option<SyntaxTree>)
        ensures
            built matches Some(tree) ==> {
                &&& tree@.wf()
                &&& tree@.fits(encode_utf8(source@).len())
                &&& exists|records: Seq<NodeRecordView>|
                    is_listing(records, encode_utf8(source@).len()) && tree@ == #[trigger] tree_of(
                        records,
                    )
            },
    {
        match self.parse(source) {
            Some(parsed) => {
                let ghost listed = tree_listing(&parsed);
                let built = build_syntax_tree(Some(parsed), source.as_bytes().len());
                proof {
                    if built is Some {
                        assert(built->0@ == tree_of(listed));
                    }
                }
                built
            },
            None => None,
        }
    }
}

} // verus!
