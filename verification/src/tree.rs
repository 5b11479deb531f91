use vstd::prelude::*;

verus! {

#[verifier::external_type_specification]
#[verifier::external_body]
pub struct ExTree(tree_sitter::Tree);

/// Whether the PHP parser yields a syntax tree for this source text.
/// Parsing is a pure function of the source text once the grammar is fixed.
pub uninterp spec fn php_parse_ok(source: Seq<char>) -> bool;

/// The texts of the leading run of comment nodes that immediately follow the
/// file's opening `<?php` tag, in file order.
pub uninterp spec fn leading_comment_texts(source: Seq<char>) -> Seq<Seq<char>>;

/// The 0-based start rows of every class, trait and interface declaration
/// the item query reaches, in file order.
pub uninterp spec fn item_declaration_rows(source: Seq<char>) -> Seq<usize>;

/// The 0-based start rows of every array-creation expression written with
/// the verbose `array(...)` keyword form, in file order.
pub uninterp spec fn long_array_rows(source: Seq<char>) -> Seq<usize>;

/// For each `if` statement's condition sub-expression, in file order: the
/// 0-based start rows of every assignment expression inside that condition,
/// in file order.
pub uninterp spec fn condition_assignment_rows(source: Seq<char>) -> Seq<Seq<usize>>;

/// One parsed source file: its path, its raw text, and the syntax tree that
/// was parsed from that text. The tree field is private, so a `ParsedFile`
/// can only be built by `ParsedFile::parse`, which guarantees that the tree
/// always belongs to `source`.
pub struct ParsedFile {
    path: String,
    source: String,
    tree: tree_sitter::Tree,
}

impl ParsedFile {
    /// The path this file's text came from.
    pub closed spec fn path_view(&self) -> Seq<char> {
        self.path@
    }

    /// The raw source text the tree was parsed from.
    pub closed spec fn source_view(&self) -> Seq<char> {
        self.source@
    }

    /// The path this file's text came from.
    pub fn path(&self) -> (r: &String)
        ensures
            r@ == self.path_view(),
    {
        &self.path
    }

    /// The raw source text the tree was parsed from.
    pub fn source(&self) -> (r: &String)
        ensures
            r@ == self.source_view(),
    {
        &self.source
    }
}

/// Relies on `tree_sitter::Parser::parse` with the grammar of
/// `tree_sitter_php::language()`: whether a tree comes back is a function of
/// the source text alone.
#[verifier::external_body]
fn parse_php_source(source: &String) -> (r: Option<tree_sitter::Tree>)
    ensures
        r is Some <==> php_parse_ok(source@),
{
    let mut parser = tree_sitter::Parser::new();
    parser.set_language(tree_sitter_php::language()).ok()?;
    parser.parse(source.as_str(), None)
}

/// Relies on `tree_sitter::Node::children` and `Node::kind` at the tree's
/// root: the run of `comment` nodes that immediately follows the opening
/// `php_tag`, cut short by the first other node. The tree in a `ParsedFile`
/// is always the parse of its `source`.
#[verifier::external_body]
pub(crate) fn leading_comments(p: &ParsedFile) -> (r: Vec<String>)
    ensures
        r.deep_view() == leading_comment_texts(p.source_view()),
{
    let root = p.tree.root_node();
    let mut cursor = root.walk();
    let mut children = root.children(&mut cursor);
    match children.next() {
        Some(c) if c.kind() == "php_tag" => {},
        _ => return Vec::new(),
    }
    let mut out = Vec::new();
    for c in children {
        if c.kind() != "comment" {
            break;
        }
        out.push(p.source[c.byte_range()].to_string());
    }
    out
}

/// Relies on `tree_sitter::QueryCursor::matches` with the query
/// `([ (class_declaration) (trait_declaration) (interface_declaration) ] @item)`,
/// handing out each match's start row. The tree in a `ParsedFile` is always
/// the parse of its `source`.
#[verifier::external_body]
pub(crate) fn item_query_rows(p: &ParsedFile) -> (r: Vec<usize>)
    ensures
        r@ == item_declaration_rows(p.source_view()),
{
    let query = tree_sitter::Query::new(
        tree_sitter_php::language(),
        "([ (class_declaration) (trait_declaration) (interface_declaration) ] @item)",
    ).unwrap();
    let mut cursor = tree_sitter::QueryCursor::new();
    cursor.matches(&query, p.tree.root_node(), p.source.as_bytes())
        .map(|m| m.captures[0].node.start_position().row)
        .collect()
}

/// Relies on `tree_sitter::QueryCursor::matches` with the query
/// `(array_creation_expression "array") @a`, handing out each match's start
/// row. The tree in a `ParsedFile` is always the parse of its `source`.
#[verifier::external_body]
pub(crate) fn long_array_query_rows(p: &ParsedFile) -> (r: Vec<usize>)
    ensures
        r@ == long_array_rows(p.source_view()),
{
    let query = tree_sitter::Query::new(
        tree_sitter_php::language(),
        "((array_creation_expression \"array\") @a)",
    ).unwrap();
    let mut cursor = tree_sitter::QueryCursor::new();
    cursor.matches(&query, p.tree.root_node(), p.source.as_bytes())
        .map(|m| m.captures[0].node.start_position().row)
        .collect()
}

/// Relies on `tree_sitter::QueryCursor::matches`, once with the query
/// `(if_statement condition: (_) @a)` and once per condition node with the
/// query `(assignment_expression) @a`, handing out the start rows of the
/// assignments found inside each condition. The tree in a `ParsedFile` is
/// always the parse of its `source`.
#[verifier::external_body]
pub(crate) fn condition_assignment_query_rows(p: &ParsedFile) -> (r: Vec<Vec<usize>>)
    ensures
        r.deep_view() == condition_assignment_rows(p.source_view()),
{
    let cq = tree_sitter::Query::new(
        tree_sitter_php::language(),
        "(if_statement condition: (_) @a)",
    ).unwrap();
    let aq = tree_sitter::Query::new(tree_sitter_php::language(), "((assignment_expression) @a)").unwrap();
    let mut cursor = tree_sitter::QueryCursor::new();
    cursor.matches(&cq, p.tree.root_node(), p.source.as_bytes()).map(|m| {
        let mut inner = tree_sitter::QueryCursor::new();
        inner.matches(&aq, m.captures[0].node, p.source.as_bytes())
            .map(|a| a.captures[0].node.start_position().row)
            .collect()
    }).collect()
}

impl ParsedFile {
    /// Parse one source file's text; `None` exactly when the parser yields
    /// no tree for it.
    pub fn parse(path: String, source: String) -> (r: Option<ParsedFile>)
        ensures
            r is Some <==> php_parse_ok(source@),
            r is Some ==> r->Some_0.path_view() == path@ && r->Some_0.source_view() == source@,
    {
        match parse_php_source(&source) {
            None => None,
            Some(tree) => Some(ParsedFile { path, source, tree }),
        }
    }
}

} // verus!
