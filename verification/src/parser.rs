//! The boundary to the tree-sitter parser. The trees, grammars and queries
//! are tree-sitter's own values; what passes between them and the rest of
//! the library is made of plain integers.
//!
//! The functions that call tree-sitter are not proved: their contracts are
//! taken from tree-sitter's source and documentation. What tree-sitter
//! computes is given a name here and left at that; the library's own
//! contracts speak of these names.

use crate::position::Point;
use vstd::prelude::*;

verus! {

/// A syntax tree, as tree-sitter holds it.
#[verifier::external_type_specification]
#[verifier::external_body]
pub struct ExTree(tree_sitter::Tree);

/// A grammar, as tree-sitter holds it.
#[verifier::external_type_specification]
#[verifier::external_body]
pub struct ExTsLanguage(tree_sitter::Language);

/// A compiled set of patterns, as tree-sitter holds it.
#[verifier::external_type_specification]
#[verifier::external_body]
pub struct ExQuery(tree_sitter::Query);

/// A stretch of text in bytes.
#[derive(Clone, Copy, Debug, PartialEq, Eq, Structural)]
pub struct ByteRange {
    pub start: usize,
    pub end: usize,
}

/// A stretch of text, both in bytes and in rows and columns.
#[derive(Clone, Copy, Debug, PartialEq, Eq, Structural)]
pub struct TextRange {
    pub start_byte: usize,
    pub end_byte: usize,
    pub start_point: Point,
    pub end_point: Point,
}

impl TextRange {
    /// The range from byte `start_byte`, at `start_row` and `start_column`,
    /// to byte `end_byte`, at `end_row` and `end_column`.
    pub fn new(
        start_byte: usize,
        end_byte: usize,
        start_row: usize,
        start_column: usize,
        end_row: usize,
        end_column: usize,
    ) -> (r: TextRange)
        ensures
            r == (TextRange {
                start_byte,
                end_byte,
                start_point: Point { row: start_row, column: start_column },
                end_point: Point { row: end_row, column: end_column },
            }),
    {
        TextRange {
            start_byte,
            end_byte,
            start_point: Point { row: start_row, column: start_column },
            end_point: Point { row: end_row, column: end_column },
        }
    }
}

/// A change to a text, in the coordinates of the tree that is told of it.
#[derive(Clone, Copy, Debug, PartialEq, Eq, Structural)]
pub struct InputEdit {
    pub start_byte: usize,
    pub old_end_byte: usize,
    pub new_end_byte: usize,
    pub start_position: Point,
    pub old_end_position: Point,
    pub new_end_position: Point,
}

/// One node that a pattern captured.
#[derive(Clone, Copy, Debug, PartialEq, Eq, Structural)]
pub struct Capture {
    /// The index of the capture's name within the query.
    pub index: u32,
    /// Where the node lies, in the tree's coordinates.
    pub range: TextRange,
}

/// One match of a query: the pattern that matched and the nodes it captured.
#[derive(Debug)]
pub struct QueryMatch {
    pub pattern_index: usize,
    pub captures: Vec<Capture>,
}

/// The tree that tree-sitter builds for `text` under `language`, reading only
/// `ranges` of it (all of it where `ranges` is empty) and starting from
/// `old_tree` where one is given; `None` where it refuses the ranges or the
/// grammar.
pub uninterp spec fn parsed(
    language: tree_sitter::Language,
    text: Seq<u8>,
    ranges: Seq<TextRange>,
    old_tree: Option<tree_sitter::Tree>,
) -> Option<tree_sitter::Tree>;

/// The tree that tree-sitter makes of `tree` when told of `edit`.
pub uninterp spec fn edited(tree: tree_sitter::Tree, edit: InputEdit) -> tree_sitter::Tree;

/// The stretches in which tree-sitter finds that `new_tree` differs in
/// structure from `old_tree`.
pub uninterp spec fn changed_between(
    old_tree: tree_sitter::Tree,
    new_tree: tree_sitter::Tree,
) -> Seq<ByteRange>;

/// The matches of `query` that tree-sitter finds in `tree` within the bytes
/// `start..end`, in the order in which it finds them, with `text` as the
/// text that the query's predicates read.
pub uninterp spec fn matches_within(
    query: tree_sitter::Query,
    tree: tree_sitter::Tree,
    text: Seq<u8>,
    start: usize,
    end: usize,
) -> Seq<QueryMatch>;

/// Whether `tree` was built under `language`.
pub uninterp spec fn built_under(tree: tree_sitter::Tree, language: tree_sitter::Language) -> bool;

/// Whether tree-sitter's parser takes `language`: whether the grammar is of
/// a version that this parser can run.
pub uninterp spec fn taken_by_parser(language: tree_sitter::Language) -> bool;

/// Whether the two trees were built under one and the same grammar.
pub open spec fn of_one_grammar(a: tree_sitter::Tree, b: tree_sitter::Tree) -> bool {
    exists|language: tree_sitter::Language|
        #[trigger] built_under(a, language) && built_under(b, language)
}

/// The bytes `start..end` of `text`, or nothing where that is no stretch of it.
pub fn text_between(text: &Vec<u8>, start: usize, end: usize) -> (bytes: &[u8])
    ensures
        bytes@ == if start <= end && end <= text.len() {
            text@.subrange(start as int, end as int)
        } else {
            Seq::<u8>::empty()
        },
{
    if start <= end && end <= text.len() {
        vstd::slice::slice_subrange(text.as_slice(), start, end)
    } else {
        vstd::slice::slice_subrange(text.as_slice(), 0, 0)
    }
}

/// Calls `Parser::set_included_ranges`, `Parser::set_language` and
/// `Parser::parse` of tree-sitter on a parser of its own, with the text from
/// byte `start` on. The result is what those three give for these arguments:
/// no tree where the ranges are out of order or the grammar is of a version
/// that the parser does not take. The parser reads the nodes of an old tree
/// by the tables of its own grammar, so an old tree has to be one that was
/// built under `language`; the tree that it builds is built under
/// `language`.
#[verifier::external_body]
pub(crate) fn run_parser(
    language: &tree_sitter::Language,
    text: &Vec<u8>,
    start: usize,
    ranges: &Vec<TextRange>,
    old_tree: Option<&tree_sitter::Tree>,
) -> (tree: Option<tree_sitter::Tree>)
    requires
        start <= text.len(),
        old_tree is Some ==> built_under(*old_tree.unwrap(), *language),
    ensures
        tree == parsed(*language, text@.skip(start as int), ranges@, match old_tree {
            Some(t) => Some(*t),
            None => None,
        }),
        tree is Some ==> built_under(tree.unwrap(), *language),
{
    let mut parser = tree_sitter::Parser::new();
    let included: Vec<tree_sitter::Range> = ranges.iter().map(|r| tree_sitter::Range {
        start_byte: r.start_byte,
        end_byte: r.end_byte,
        start_point: tree_sitter::Point::new(r.start_point.row, r.start_point.column),
        end_point: tree_sitter::Point::new(r.end_point.row, r.end_point.column),
    }).collect();
    parser.set_included_ranges(&included).ok()?;
    parser.set_language(*language).ok()?;
    parser.parse(&text[start..], old_tree)
}

/// Calls `Tree::edit` of tree-sitter, which shifts the tree's nodes as the
/// edit says and marks those that it touches. The grammar of the tree stays
/// what it is.
#[verifier::external_body]
pub(crate) fn edit_tree(tree: &mut tree_sitter::Tree, edit: &InputEdit)
    ensures
        *final(tree) == edited(*old(tree), *edit),
        forall|language: tree_sitter::Language|
            #[trigger] built_under(*final(tree), language) == built_under(*old(tree), language),
{
    tree.edit(&tree_sitter::InputEdit {
        start_byte: edit.start_byte,
        old_end_byte: edit.old_end_byte,
        new_end_byte: edit.new_end_byte,
        start_position: tree_sitter::Point::new(edit.start_position.row, edit.start_position.column),
        old_end_position: tree_sitter::Point::new(edit.old_end_position.row, edit.old_end_position.column),
        new_end_position: tree_sitter::Point::new(edit.new_end_position.row, edit.new_end_position.column),
    });
}

/// Calls `Tree::changed_ranges` of tree-sitter, for two trees of one
/// grammar, and keeps the byte offsets of each range that it reports.
#[verifier::external_body]
pub(crate) fn changed_ranges(old_tree: &tree_sitter::Tree, new_tree: &tree_sitter::Tree) -> (ranges:
    Vec<ByteRange>)
    requires
        of_one_grammar(*old_tree, *new_tree),
    ensures
        ranges@ == changed_between(*old_tree, *new_tree),
{
    old_tree.changed_ranges(new_tree).map(|r| ByteRange { start: r.start_byte, end: r.end_byte }).collect()
}

/// Calls `Tree::language` of tree-sitter and compares what it gives with
/// `language`, which tree-sitter does by the identity of the grammar.
#[verifier::external_body]
pub(crate) fn is_built_under(tree: &tree_sitter::Tree, language: &tree_sitter::Language) -> (same:
    bool)
    ensures
        same == built_under(*tree, *language),
{
    tree.language() == *language
}

/// Calls `Parser::set_language` of tree-sitter on a parser of its own and
/// says whether the parser took the grammar, which it does where the grammar
/// is of a version that it can run.
#[verifier::external_body]
pub(crate) fn parser_takes(language: &tree_sitter::Language) -> (taken: bool)
    ensures
        taken == taken_by_parser(*language),
{
    tree_sitter::Parser::new().set_language(*language).is_ok()
}

/// Calls `Tree::clone` of tree-sitter, which hands out a second handle to the
/// same tree.
#[verifier::external_body]
pub(crate) fn clone_tree(tree: &tree_sitter::Tree) -> (copy: tree_sitter::Tree)
    ensures
        copy == *tree,
{
    tree.clone()
}

/// Calls `QueryCursor::set_byte_range` and `QueryCursor::matches` of
/// tree-sitter on a cursor of its own, from the root of `tree`, and lists
/// each match with the index and the place of every node it captured.
#[verifier::external_body]
pub(crate) fn run_query(
    query: &tree_sitter::Query,
    tree: &tree_sitter::Tree,
    text: &Vec<u8>,
    start: usize,
    end: usize,
) -> (found: Vec<QueryMatch>)
    ensures
        found@ == matches_within(*query, *tree, text@, start, end),
{
    let mut cursor = tree_sitter::QueryCursor::new();
    cursor.set_byte_range(start..end);
    let read = |n: tree_sitter::Node| std::iter::once(text_between(text, n.start_byte(), n.end_byte()));
    cursor.matches(query, tree.root_node(), read).map(|m| QueryMatch {
        pattern_index: m.pattern_index,
        captures: m.captures.iter().map(|c| (c.index, c.node.range())).map(|(index, r)| Capture {
            index,
            range: TextRange {
                start_byte: r.start_byte,
                end_byte: r.end_byte,
                start_point: Point { row: r.start_point.row, column: r.start_point.column },
                end_point: Point { row: r.end_point.row, column: r.end_point.column },
            },
        }).collect(),
    }).collect()
}

} // verus!
