//! The Markdown syntax tree as plain values: tree-sitter-md's block grammar
//! flattened into its nodes in document (pre)order.

use vstd::prelude::*;

verus! {

/// One node of the syntax tree: its grammar kind, its byte span `[start, end)`
/// in the source and its depth below the document root (the root has depth 0).
#[derive(Debug)]
pub struct SyntaxNode {
    pub kind: String,
    pub start: usize,
    pub end: usize,
    pub depth: usize,
}

impl View for SyntaxNode {
    type V = (Seq<char>, usize, usize, usize);

    open spec fn view(&self) -> (Seq<char>, usize, usize, usize) {
        (self.kind@, self.start, self.end, self.depth)
    }
}

/// Syntax nodes taken as plain values.
pub open spec fn syntax_view(nodes: Seq<SyntaxNode>) -> Seq<(Seq<char>, usize, usize, usize)> {
    nodes.map_values(|n: SyntaxNode| n@)
}

/// `tree_sitter::Tree`, a parsed syntax tree.
#[verifier::external_type_specification]
#[verifier::external_body]
pub struct ExTree(tree_sitter::Tree);

/// The nodes of a syntax tree in preorder (the order in which
/// `TreeCursor::goto_descendant` numbers them, the root being number 0): kind,
/// byte start, byte end and depth below the root of each.
pub uninterp spec fn tree_nodes(tree: tree_sitter::Tree) -> Seq<(Seq<char>, usize, usize, usize)>;

/// The nodes, in preorder, of the tree that tree-sitter-md's block grammar
/// gives for `source` (kind, byte start, byte end and depth of each), or none
/// when the parser gives no tree for it.
pub uninterp spec fn markdown_syntax(source: Seq<u8>) -> Option<Seq<(Seq<char>, usize, usize, usize)>>;

/// Nodes listed in preorder never start before an earlier one.
pub open spec fn starts_ordered(nodes: Seq<(Seq<char>, usize, usize, usize)>) -> bool {
    forall|i: int, j: int| 0 <= i < j < nodes.len() ==> #[trigger] nodes[i].1 <= #[trigger] nodes[j].1
}

/// Node `j` lies in the subtree of node `i` of a preorder list: it comes after
/// `i`, and every node from just after `i` up to `j` is deeper than `i`.
pub open spec fn in_subtree(nodes: Seq<(Seq<char>, usize, usize, usize)>, i: int, j: int) -> bool {
    &&& i < j
    &&& forall|k: int| i < k <= j ==> #[trigger] nodes[k].3 > nodes[i].3
}

/// How the nodes of a tree are placed in its source, listed in preorder: no
/// node ends before it starts, no node starts before an earlier one, and a
/// node outside the subtree of an earlier one starts at or after that one's
/// end. (A tree's first child starts where its parent starts, each later child
/// after the end of the one before it, and a node's children end by its end.)
pub open spec fn tree_placed(nodes: Seq<(Seq<char>, usize, usize, usize)>) -> bool {
    &&& forall|i: int| 0 <= i < nodes.len() ==> #[trigger] nodes[i].1 <= nodes[i].2
    &&& starts_ordered(nodes)
    &&& forall|i: int, j: int|
        0 <= i < j < nodes.len() && !in_subtree(nodes, i, j) ==> #[trigger] nodes[i].2
            <= #[trigger] nodes[j].1
}

/// The block kinds a directive or a heading is read from: headings, HTML
/// blocks and directive comments (the last only in grammars that single them
/// out).
pub open spec fn is_block_kind(k: Seq<char>) -> bool {
    ||| k == "atx_heading"@
    ||| k == "setext_heading"@
    ||| k == "html_block"@
    ||| k == "directive_comment"@
}

/// Nodes of those block kinds are not empty, and none lies in the subtree of
/// another.
pub open spec fn blocks_flat(nodes: Seq<(Seq<char>, usize, usize, usize)>) -> bool {
    &&& forall|i: int| 0 <= i < nodes.len() && is_block_kind(#[trigger] nodes[i].0) ==> nodes[i].1 < nodes[i].2
    &&& forall|i: int, j: int|
        0 <= i < j < nodes.len() && is_block_kind(#[trigger] nodes[i].0) && is_block_kind(
            #[trigger] nodes[j].0,
        ) ==> !in_subtree(nodes, i, j)
}

/// Block nodes of a well-placed flat list follow one another without
/// overlapping.
pub proof fn lemma_blocks_apart(nodes: Seq<(Seq<char>, usize, usize, usize)>, i: int, j: int)
    requires
        tree_placed(nodes),
        blocks_flat(nodes),
        0 <= i < j < nodes.len(),
        is_block_kind(nodes[i].0),
        is_block_kind(nodes[j].0),
    ensures
        nodes[i].1 < nodes[i].2 <= nodes[j].1 < nodes[j].2,
{
    assert(!in_subtree(nodes, i, j));
}

/// `tree_sitter::Parser::parse` of `source` with a parser set to
/// `tree_sitter_md::LANGUAGE` (`Parser::new`, `Parser::set_language`).
/// Claimed: the tree that comes back, or that none does, is what
/// `markdown_syntax` names for `source`. `parse` without a progress callback
/// gives no tree only when no language is set, and `set_language` refuses the
/// grammar only for an ABI version of another tree-sitter runtime, which is
/// fixed when the crate is built; which of the two holds is left unsaid. Also
/// claimed, of a tree that comes back:
/// - `tree_placed`: tree-sitter places each child at its parent's position
///   plus the sizes of the siblings before it and its own padding, so children
///   follow one another inside their parent;
/// - `blocks_flat`: in tree-sitter-md's block grammar a heading holds only its
///   marker or underline and its inline text or paragraph, and an HTML block
///   only its lines and a block continuation, so none of these holds another;
///   each holds a marker, an underline or an opening token (from `<` on) that
///   is not empty; the grammar has no `directive_comment` nodes.
#[verifier::external_body]
fn parse_markdown_tree(source: &[u8]) -> (r: Option<tree_sitter::Tree>)
    ensures
        markdown_syntax(source@) == match r {
            Some(t) => Some(tree_nodes(t)),
            None => None::<Seq<(Seq<char>, usize, usize, usize)>>,
        },
        r matches Some(t) ==> tree_placed(tree_nodes(t)),
        r matches Some(t) ==> blocks_flat(tree_nodes(t)),
{
    let mut parser = tree_sitter::Parser::new();
    parser.set_language(&tree_sitter_md::LANGUAGE.into()).ok()?;
    parser.parse(source, None)
}

/// `Node::descendant_count` of the root of `tree`: how many nodes it has.
#[verifier::external_body]
fn node_count(tree: &tree_sitter::Tree) -> (r: usize)
    ensures
        r == tree_nodes(*tree).len(),
{
    tree.root_node().descendant_count()
}

/// Node number `i` of `tree` in preorder, reached with
/// `TreeCursor::goto_descendant` and read with `TreeCursor::depth`,
/// `Node::kind`, `Node::start_byte` and `Node::end_byte`.
#[verifier::external_body]
fn node_at(tree: &tree_sitter::Tree, i: usize) -> (r: SyntaxNode)
    requires
        i < tree_nodes(*tree).len(),
    ensures
        r@ == tree_nodes(*tree)[i as int],
{
    let mut cursor = tree.walk();
    cursor.goto_descendant(i);
    let node = cursor.node();
    let (kind, start, end) = (node.kind().to_string(), node.start_byte(), node.end_byte());
    SyntaxNode { kind, start, end, depth: cursor.depth() as usize }
}

/// Syntax nodes, if any, taken as plain values.
pub open spec fn opt_syntax_view(res: Option<Vec<SyntaxNode>>) -> Option<
    Seq<(Seq<char>, usize, usize, usize)>,
> {
    match res {
        Some(nodes) => Some(syntax_view(nodes@)),
        None => None,
    }
}

/// Lists the nodes of `tree` in preorder.
pub fn tree_syntax(tree: &tree_sitter::Tree) -> (r: Vec<SyntaxNode>)
    ensures
        syntax_view(r@) == tree_nodes(*tree),
{
    let ghost all = tree_nodes(*tree);
    let n = node_count(tree);
    let mut nodes: Vec<SyntaxNode> = Vec::new();
    let mut i: usize = 0;
    while i < n
        invariant
            i <= n,
            n == all.len(),
            all == tree_nodes(*tree),
            syntax_view(nodes@) == all.take(i as int),
        decreases n - i,
    {
        let node = node_at(tree, i);
        let ghost before = syntax_view(nodes@);
        let ghost nv = node@;
        nodes.push(node);
        assert(syntax_view(nodes@) =~= before.push(nv));
        i = i + 1;
        assert(syntax_view(nodes@) =~= all.take(i as int));
    }
    assert(all.take(i as int) =~= all);
    nodes
}

/// Parses `source` as Markdown and lists the nodes of its syntax tree in
/// preorder; `None` when the parser gives no tree.
pub fn parse_markdown(source: &[u8]) -> (res: Option<Vec<SyntaxNode>>)
    ensures
        opt_syntax_view(res) == markdown_syntax(source@),
        res matches Some(nodes) ==> tree_placed(syntax_view(nodes@)) && blocks_flat(
            syntax_view(nodes@),
        ),
{
    match parse_markdown_tree(source) {
        Some(t) => Some(tree_syntax(&t)),
        None => None,
    }
}

} // verus!
