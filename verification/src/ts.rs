//! The calls into `tree-sitter` that parse Python. A node is known by the
//! text that was parsed and its path from the root (the index of each child
//! on the way down); what the parser reports of it is named as a function of
//! those two, since the same text always parses to the same tree.
use vstd::prelude::*;

verus! {

#[verifier::external_type_specification]
#[verifier::external_body]
pub struct ExTsParser(tree_sitter::Parser);

#[verifier::external_type_specification]
#[verifier::external_body]
pub struct ExTsTree(tree_sitter::Tree);

#[verifier::external_type_specification]
#[verifier::external_body]
pub struct ExTsNode<'a>(tree_sitter::Node<'a>);

/// Whether `tree_sitter::Parser::parse`, with the Python grammar and no
/// earlier tree, gives a tree for `source`.
pub uninterp spec fn ts_parses(source: Seq<char>) -> bool;

/// `tree_sitter::Node::descendant_count` of the node at `path` in the tree of `source`.
pub uninterp spec fn ts_descendant_count(source: Seq<char>, path: Seq<usize>) -> usize;

/// `tree_sitter::Node::kind` of the node at `path` in the tree of `source`.
pub uninterp spec fn ts_kind(source: Seq<char>, path: Seq<usize>) -> Seq<char>;

/// `tree_sitter::Node::is_named` of the node at `path` in the tree of `source`.
pub uninterp spec fn ts_is_named(source: Seq<char>, path: Seq<usize>) -> bool;

/// `tree_sitter::Node::is_error` of the node at `path` in the tree of `source`.
pub uninterp spec fn ts_is_error(source: Seq<char>, path: Seq<usize>) -> bool;

/// `tree_sitter::Node::is_missing` of the node at `path` in the tree of `source`.
pub uninterp spec fn ts_is_missing(source: Seq<char>, path: Seq<usize>) -> bool;

/// `tree_sitter::Node::start_byte` of the node at `path` in the tree of `source`.
pub uninterp spec fn ts_start_byte(source: Seq<char>, path: Seq<usize>) -> usize;

/// `tree_sitter::Node::end_byte` of the node at `path` in the tree of `source`.
pub uninterp spec fn ts_end_byte(source: Seq<char>, path: Seq<usize>) -> usize;

/// `tree_sitter::Node::start_position` (row, column) of the node at `path`
/// in the tree of `source`.
pub uninterp spec fn ts_start_position(source: Seq<char>, path: Seq<usize>) -> (usize, usize);

/// `tree_sitter::Node::child_count` of the node at `path` in the tree of `source`.
pub uninterp spec fn ts_child_count(source: Seq<char>, path: Seq<usize>) -> usize;

/// Whether `tree_sitter::Node::child(i)` of the node at `path` in the tree
/// of `source` gives a node.
pub uninterp spec fn ts_has_child(source: Seq<char>, path: Seq<usize>, i: usize) -> bool;

/// `tree_sitter::Node::field_name_for_child(i)` of the node at `path` in the
/// tree of `source`.
pub uninterp spec fn ts_field_name_for_child(source: Seq<char>, path: Seq<usize>, i: u32) -> Option<
    Seq<char>,
>;

/// A parser with the Python grammar.
pub struct TsParser {
    parser: tree_sitter::Parser,
}

/// The tree that the Python parser built for a text.
pub struct TsTree {
    tree: tree_sitter::Tree,
    source: Ghost<Seq<char>>,
}

impl TsTree {
    /// The text the tree was parsed from.
    pub closed spec fn source(&self) -> Seq<char> {
        self.source@
    }
}

/// A node of such a tree, with the text parsed and the node's path.
pub struct TsNode<'a> {
    node: tree_sitter::Node<'a>,
    source: Ghost<Seq<char>>,
    path: Ghost<Seq<usize>>,
}

impl<'a> TsNode<'a> {
    pub closed spec fn source(&self) -> Seq<char> {
        self.source@
    }

    pub closed spec fn path(&self) -> Seq<usize> {
        self.path@
    }
}

/// `tree_sitter::Parser::new`, then `Parser::set_language` with the grammar
/// of `tree_sitter_python`. `set_language` fails only for a grammar whose ABI
/// version lies outside what the library reads (13 to 15 for tree-sitter
/// 0.25); the Python grammar 0.23 is ABI 14, so the parser is always made.
/// The error arm keeps the crate's message should the two ever disagree.
#[verifier::external_body]
pub(crate) fn python_parser() -> (r: Result<TsParser, String>)
    ensures
        r is Ok,
{
    let mut parser = tree_sitter::Parser::new();
    match parser.set_language(&tree_sitter_python::LANGUAGE.into()) {
        Ok(()) => Ok(TsParser { parser }),
        Err(error) => Err(format!("failed to load Python grammar: {error}")),
    }
}

/// `tree_sitter::Parser::parse` on the text, with no earlier tree: a tree
/// exactly where `ts_parses` says so.
#[verifier::external_body]
pub(crate) fn parse_text(parser: &mut TsParser, source: &str) -> (r: Option<TsTree>)
    ensures
        r is Some <==> ts_parses(source@),
        r matches Some(t) ==> t.source() == source@,
{
    parser.parser.parse(source, None).map(|tree| TsTree { tree, source: Ghost(source@) })
}

/// `tree_sitter::Tree::root_node`: the node at the empty path.
#[verifier::external_body]
pub(crate) fn root_node<'a>(tree: &'a TsTree) -> (r: TsNode<'a>)
    ensures
        r.source() == tree.source(),
        r.path() == Seq::<usize>::empty(),
{
    TsNode { node: tree.tree.root_node(), source: Ghost(tree.source@), path: Ghost(Seq::empty()) }
}

/// `tree_sitter::Node::descendant_count`.
#[verifier::external_body]
pub(crate) fn descendant_count(node: &TsNode) -> (r: usize)
    ensures
        r == ts_descendant_count(node.source(), node.path()),
{
    node.node.descendant_count()
}

/// `tree_sitter::Node::kind`.
#[verifier::external_body]
pub(crate) fn node_kind(node: &TsNode) -> (r: String)
    ensures
        r@ == ts_kind(node.source(), node.path()),
{
    node.node.kind().to_owned()
}

/// `tree_sitter::Node::is_named`.
#[verifier::external_body]
pub(crate) fn node_is_named(node: &TsNode) -> (r: bool)
    ensures
        r == ts_is_named(node.source(), node.path()),
{
    node.node.is_named()
}

/// `tree_sitter::Node::is_error`.
#[verifier::external_body]
pub(crate) fn node_is_error(node: &TsNode) -> (r: bool)
    ensures
        r == ts_is_error(node.source(), node.path()),
{
    node.node.is_error()
}

/// `tree_sitter::Node::is_missing`.
#[verifier::external_body]
pub(crate) fn node_is_missing(node: &TsNode) -> (r: bool)
    ensures
        r == ts_is_missing(node.source(), node.path()),
{
    node.node.is_missing()
}

/// `tree_sitter::Node::start_byte`.
#[verifier::external_body]
pub(crate) fn node_start_byte(node: &TsNode) -> (r: usize)
    ensures
        r == ts_start_byte(node.source(), node.path()),
{
    node.node.start_byte()
}

/// `tree_sitter::Node::end_byte`.
#[verifier::external_body]
pub(crate) fn node_end_byte(node: &TsNode) -> (r: usize)
    ensures
        r == ts_end_byte(node.source(), node.path()),
{
    node.node.end_byte()
}

/// `tree_sitter::Node::start_position`, as row and column.
#[verifier::external_body]
pub(crate) fn node_start_position(node: &TsNode) -> (r: (usize, usize))
    ensures
        r == ts_start_position(node.source(), node.path()),
{
    let point = node.node.start_position();
    (point.row, point.column)
}

/// `tree_sitter::Node::child_count`, which tree-sitter counts in a `u32`.
#[verifier::external_body]
pub(crate) fn node_child_count(node: &TsNode) -> (r: usize)
    ensures
        r == ts_child_count(node.source(), node.path()),
        r <= u32::MAX,
{
    node.node.child_count()
}

/// `tree_sitter::Node::child`: the child is the node one step further down,
/// at index `i`, which the method passes on as a `u32`.
#[verifier::external_body]
pub(crate) fn node_child<'a>(node: &TsNode<'a>, i: usize) -> (r: Option<TsNode<'a>>)
    requires
        i <= u32::MAX,
    ensures
        r is Some <==> ts_has_child(node.source(), node.path(), i),
        r matches Some(c) ==> c.source() == node.source() && c.path() == node.path().push(i),
{
    node.node.child(i).map(|child| TsNode { node: child, source: Ghost(node.source@), path: Ghost(node.path@.push(i)) })
}

/// `tree_sitter::Node::field_name_for_child`, with the index as the `u32`
/// that the method takes.
#[verifier::external_body]
pub(crate) fn node_field_name_for_child(node: &TsNode, i: usize) -> (r: Option<String>)
    requires
        i <= u32::MAX,
    ensures
        match r {
            Some(name) => ts_field_name_for_child(node.source(), node.path(), i as u32) == Some(name@),
            None => ts_field_name_for_child(node.source(), node.path(), i as u32) is None,
        },
{
    node.node.field_name_for_child(i as u32).map(|name| name.to_owned())
}

} // verus!
