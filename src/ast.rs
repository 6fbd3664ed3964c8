//! The source tree: a markdown document as a parser hands it over, with the
//! values that the conversion reads.
use vstd::prelude::*;

verus! {

/// A node of the source tree.
///
/// The supported kinds carry their children and the values that the
/// conversion reads; the other kinds are named only, since meeting one ends
/// the conversion.
#[derive(Debug, PartialEq, Eq)]
pub enum Node<'a> {
    Root { children: Vec<Node<'a>> },
    Heading { depth: u8, children: Vec<Node<'a>> },
    Paragraph { children: Vec<Node<'a>> },
    Text { value: &'a str },
    Code { value: &'a str },
    Strong { children: Vec<Node<'a>> },
    Emphasis { children: Vec<Node<'a>> },
    InlineCode { value: &'a str },
    Delete { children: Vec<Node<'a>> },
    Link { children: Vec<Node<'a>> },
    List { ordered: bool, children: Vec<Node<'a>> },
    ListItem { children: Vec<Node<'a>> },
    BlockQuote,
    FootnoteDefinition,
    MdxJsxFlowElement,
    MdxjsEsm,
    Toml,
    Yaml,
    Break,
    InlineMath,
    MdxTextExpression,
    FootnoteReference,
    Html,
    Image,
    ImageReference,
    MdxJsxTextElement,
    LinkReference,
    Math,
    MdxFlowExpression,
    Table,
    ThematicBreak,
    TableRow,
    TableCell,
    Definition,
}

/// The name of a node's kind, as error reports show it.
pub open spec fn kind_name(node: Node) -> &'static str {
    match node {
        Node::Root { .. } => "Root",
        Node::BlockQuote => "BlockQuote",
        Node::FootnoteDefinition => "FootnoteDefinition",
        Node::MdxJsxFlowElement => "MdxJsxFlowElement",
        Node::List { .. } => "List",
        Node::MdxjsEsm => "MdxjsEsm",
        Node::Toml => "Toml",
        Node::Yaml => "Yaml",
        Node::Break => "Break",
        Node::InlineCode { .. } => "InlineCode",
        Node::InlineMath => "InlineMath",
        Node::Delete { .. } => "Delete",
        Node::Emphasis { .. } => "Emphasis",
        Node::MdxTextExpression => "MdxTextExpression",
        Node::FootnoteReference => "FootnoteReference",
        Node::Html => "Html",
        Node::Image => "Image",
        Node::ImageReference => "ImageReference",
        Node::MdxJsxTextElement => "MdxJsxTextElement",
        Node::Link { .. } => "Link",
        Node::LinkReference => "LinkReference",
        Node::Strong { .. } => "Strong",
        Node::Text { .. } => "Text",
        Node::Code { .. } => "Code",
        Node::Math => "Math",
        Node::MdxFlowExpression => "MdxFlowExpression",
        Node::Heading { .. } => "Heading",
        Node::Table => "Table",
        Node::ThematicBreak => "ThematicBreak",
        Node::TableRow => "TableRow",
        Node::TableCell => "TableCell",
        Node::ListItem { .. } => "ListItem",
        Node::Definition => "Definition",
        Node::Paragraph { .. } => "Paragraph",
    }
}

/// Finds a name for a node, for error reports.
pub fn type_of(node: &Node) -> (r: &'static str)
    ensures
        r == kind_name(*node),
{
    match node {
        Node::Root { .. } => "Root",
        Node::BlockQuote => "BlockQuote",
        Node::FootnoteDefinition => "FootnoteDefinition",
        Node::MdxJsxFlowElement => "MdxJsxFlowElement",
        Node::List { .. } => "List",
        Node::MdxjsEsm => "MdxjsEsm",
        Node::Toml => "Toml",
        Node::Yaml => "Yaml",
        Node::Break => "Break",
        Node::InlineCode { .. } => "InlineCode",
        Node::InlineMath => "InlineMath",
        Node::Delete { .. } => "Delete",
        Node::Emphasis { .. } => "Emphasis",
        Node::MdxTextExpression => "MdxTextExpression",
        Node::FootnoteReference => "FootnoteReference",
        Node::Html => "Html",
        Node::Image => "Image",
        Node::ImageReference => "ImageReference",
        Node::MdxJsxTextElement => "MdxJsxTextElement",
        Node::Link { .. } => "Link",
        Node::LinkReference => "LinkReference",
        Node::Strong { .. } => "Strong",
        Node::Text { .. } => "Text",
        Node::Code { .. } => "Code",
        Node::Math => "Math",
        Node::MdxFlowExpression => "MdxFlowExpression",
        Node::Heading { .. } => "Heading",
        Node::Table => "Table",
        Node::ThematicBreak => "ThematicBreak",
        Node::TableRow => "TableRow",
        Node::TableCell => "TableCell",
        Node::ListItem { .. } => "ListItem",
        Node::Definition => "Definition",
        Node::Paragraph { .. } => "Paragraph",
    }
}

} // verus!
