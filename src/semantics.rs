//! What converting a source tree means: the emitter's state as plain values,
//! and the effect of each node kind on it.
use vstd::prelude::*;
use crate::ast::{Node, kind_name};
use crate::error::{ToMinimadError, while_emitting};
use crate::options::{Options, Styling, spacing_after};
use crate::segment::lines_of;
use crate::text::{CompositeStyle, CompositeView, CompoundView, LineView, normal_line};

verus! {

/// The inline styles in force while emitting.
#[derive(Debug, Clone, Copy, PartialEq, Eq, Structural)]
pub struct Style {
    pub bold: bool,
    pub italic: bool,
    pub strikeout: bool,
}

/// What the emitter is building: block structure, or one line of runs.
pub enum ModelView {
    /// Between blocks; `spacing` says whether the next block needs a blank
    /// line before it.
    Flow { spacing: bool },
    /// Inside a block, gathering the runs of its current line.
    Phrasing { style: CompositeStyle, compounds: Seq<CompoundView> },
}

/// The emitter's state: the lines emitted so far and its content model.
pub struct Doc {
    pub lines: Seq<LineView>,
    pub model: Option<ModelView>,
}

/// The state of a fresh emitter.
pub open spec fn empty_doc() -> Doc {
    Doc { lines: seq![], model: None }
}

/// No inline style at all.
pub open spec fn plain() -> Style {
    Style { bold: false, italic: false, strikeout: false }
}

/// A run of the given characters with the given flags.
pub open spec fn run(
    src: Seq<char>,
    bold: bool,
    italic: bool,
    code: bool,
    strikeout: bool,
) -> CompoundView {
    CompoundView { src, bold, italic, code, strikeout }
}

/// The blank line that separates two blocks.
pub open spec fn empty_line() -> LineView {
    normal_line(CompositeStyle::Paragraph, seq![])
}

/// Appends a run to the current line, opening a paragraph if no line is
/// being built.
pub open spec fn push_run(d: Doc, c: CompoundView) -> Doc {
    match d.model {
        Some(ModelView::Phrasing { style, compounds }) => Doc {
            lines: d.lines,
            model: Some(ModelView::Phrasing { style, compounds: compounds.push(c) }),
        },
        _ => Doc {
            lines: d.lines,
            model: Some(ModelView::Phrasing { style: CompositeStyle::Paragraph, compounds: seq![c] }),
        },
    }
}

/// Ends the current line and starts another of the same style; outside a
/// line, nothing changes.
pub open spec fn break_line(d: Doc) -> Doc {
    match d.model {
        Some(ModelView::Phrasing { style, compounds }) => Doc {
            lines: d.lines.push(normal_line(style, compounds)),
            model: Some(ModelView::Phrasing { style, compounds: seq![] }),
        },
        _ => d,
    }
}

/// Emits the given pieces as runs with the same flags, one line each.
pub open spec fn emit_runs(
    d: Doc,
    pieces: Seq<Seq<char>>,
    bold: bool,
    italic: bool,
    code: bool,
    strikeout: bool,
) -> Doc
    decreases pieces.len(),
{
    if pieces.len() == 0 {
        d
    } else {
        let before = emit_runs(d, pieces.drop_last(), bold, italic, code, strikeout);
        let at = if pieces.len() > 1 {
            break_line(before)
        } else {
            before
        };
        push_run(at, run(pieces.last(), bold, italic, code, strikeout))
    }
}

/// Emits a text value, one run for each of its lines.
pub open spec fn emit_text(
    d: Doc,
    value: Seq<char>,
    bold: bool,
    italic: bool,
    code: bool,
    strikeout: bool,
) -> Doc {
    emit_runs(d, lines_of(value), bold, italic, code, strikeout)
}

/// The model put aside while a block is built: the current one with its
/// runs taken out, or flow without spacing if there was none.
pub open spec fn saved_model(d: Doc) -> ModelView {
    match d.model {
        Some(ModelView::Phrasing { style, .. }) => ModelView::Phrasing { style, compounds: seq![] },
        Some(m) => m,
        None => ModelView::Flow { spacing: false },
    }
}

/// Opens a block of the given style: a line in progress is ended, a blank
/// line is emitted if the previous block asked for one, and an empty line of
/// the new style is started.
pub open spec fn enter_phrasing(d: Doc, style: CompositeStyle) -> Doc {
    let flushed = match d.model {
        Some(ModelView::Phrasing { style: s, compounds }) => d.lines.push(normal_line(s, compounds)),
        _ => d.lines,
    };
    let spaced = if saved_model(d) == (ModelView::Flow { spacing: true }) {
        flushed.push(empty_line())
    } else {
        flushed
    };
    Doc { lines: spaced, model: Some(ModelView::Phrasing { style, compounds: seq![] }) }
}

/// The lines, followed by the line in progress if it holds any run.
pub open spec fn flush_pending(lines: Seq<LineView>, model: Option<ModelView>) -> Seq<LineView> {
    match model {
        Some(ModelView::Phrasing { style, compounds }) => if compounds.len() > 0 {
            lines.push(normal_line(style, compounds))
        } else {
            lines
        },
        _ => lines,
    }
}

/// Closes a block: the line in progress is ended if it holds any run, and
/// the saved model comes back, recording whether the next block needs a blank
/// line first.
pub open spec fn leave_phrasing(d: Doc, saved: ModelView, spacing: bool) -> Doc {
    let restored = match saved {
        ModelView::Flow { .. } => ModelView::Flow { spacing },
        _ => saved,
    };
    Doc { lines: flush_pending(d.lines, d.model), model: Some(restored) }
}

/// The lines of a finished emission: those emitted, then the line still in
/// progress if it holds any run.
pub open spec fn finished(d: Doc) -> Seq<LineView> {
    flush_pending(d.lines, d.model)
}

/// `after` starts with all the lines of `before`, unchanged.
pub open spec fn keeps(before: Seq<LineView>, after: Seq<LineView>) -> bool {
    &&& before.len() <= after.len()
    &&& forall|j: int| 0 <= j < before.len() ==> #[trigger] after[j] == before[j]
}

/// A node that fails before anything is emitted: an ordered list, a list
/// item outside a list, or a node of an unsupported kind.
pub open spec fn fails_at_once(node: Node) -> bool {
    match node {
        Node::List { ordered, .. } => ordered,
        Node::Root { .. } | Node::Heading { .. } | Node::Paragraph { .. } | Node::Text { .. }
        | Node::Code { .. } | Node::Strong { .. } | Node::Emphasis { .. } | Node::InlineCode { .. }
        | Node::Delete { .. } | Node::Link { .. } => false,
        _ => true,
    }
}

/// `leave_phrasing` on success; a failure passes through.
pub open spec fn close_phrasing(
    r: Result<Doc, ToMinimadError>,
    saved: ModelView,
    spacing: bool,
) -> Result<Doc, ToMinimadError> {
    match r {
        Ok(d) => Ok(leave_phrasing(d, saved, spacing)),
        Err(e) => Err(e),
    }
}

/// The style of a link's contents: each flag that the options set, else the
/// surrounding one.
pub open spec fn link_style(s: Styling, style: Style) -> Style {
    Style {
        bold: match s.bold {
            Some(b) => b,
            None => style.bold,
        },
        italic: match s.italic {
            Some(b) => b,
            None => style.italic,
        },
        strikeout: match s.strikeout {
            Some(b) => b,
            None => style.strikeout,
        },
    }
}

/// The run put in front of a nested block's line to indent it.
pub open spec fn indent_run() -> CompoundView {
    run(seq![' ', ' '], false, false, false, false)
}

/// The lines of a list item with its bullet line first: the first line made
/// a bullet if it is a paragraph, else an empty bullet line put before all.
pub open spec fn with_bullet(lines: Seq<LineView>) -> Seq<LineView> {
    let bullet = normal_line(CompositeStyle::ListItem(0), seq![]);
    if lines.len() == 0 {
        seq![bullet]
    } else {
        match lines[0] {
            LineView::Normal(CompositeView { style: CompositeStyle::Paragraph, compounds }) => lines.update(
                0,
                normal_line(CompositeStyle::ListItem(0), compounds),
            ),
            _ => seq![bullet] + lines,
        }
    }
}

/// A list item line that cannot be nested any deeper.
pub open spec fn is_deepest_item(l: LineView) -> bool {
    l matches LineView::Normal(CompositeView { style: CompositeStyle::ListItem(k), .. }) && k == 255
}

/// A line after an item's bullet line: a list item goes one level deeper,
/// another block gets an indenting run in front.
pub open spec fn nested_line(l: LineView) -> LineView {
    match l {
        LineView::Normal(CompositeView { style, compounds }) => match style {
            CompositeStyle::ListItem(k) => normal_line(
                CompositeStyle::ListItem((k + 1) as u8),
                compounds,
            ),
            _ => normal_line(style, seq![indent_run()] + compounds),
        },
        _ => l,
    }
}

/// The lines that a converted list item contributes to its list.
pub open spec fn bullet_lines(lines: Seq<LineView>) -> Result<Seq<LineView>, ToMinimadError> {
    let b = with_bullet(lines);
    if exists|j: int| 1 <= j < b.len() && #[trigger] is_deepest_item(b[j]) {
        Err(ToMinimadError::ListTooMuchNested)
    } else {
        Ok(
            Seq::new(
                b.len(),
                |j: int|
                    if j == 0 {
                        b[0]
                    } else {
                        nested_line(b[j])
                    },
            ),
        )
    }
}

/// Emits a node in state `d` with the inline style `style`.
pub open spec fn emit(o: Options, style: Style, d: Doc, node: Node) -> Result<
    Doc,
    ToMinimadError,
>
    decreases node,
{
    let r = match node {
        Node::Root { children } => emit_all(o, style, d, children@),
        Node::Heading { depth, children } => close_phrasing(
            emit_all(o, style, enter_phrasing(d, CompositeStyle::Header(depth)), children@),
            saved_model(d),
            spacing_after(o, depth),
        ),
        Node::Paragraph { children } => close_phrasing(
            emit_all(o, style, enter_phrasing(d, CompositeStyle::Paragraph), children@),
            saved_model(d),
            true,
        ),
        Node::Text { value } => Ok(
            emit_text(d, value@, style.bold, style.italic, false, style.strikeout),
        ),
        Node::Code { value } => Ok(
            leave_phrasing(
                emit_text(
                    enter_phrasing(d, CompositeStyle::Code),
                    value@,
                    false,
                    false,
                    false,
                    false,
                ),
                saved_model(d),
                true,
            ),
        ),
        Node::Strong { children } => emit_all(
            o,
            Style { bold: true, ..style },
            d,
            children@,
        ),
        Node::Emphasis { children } => emit_all(
            o,
            Style { italic: true, ..style },
            d,
            children@,
        ),
        Node::InlineCode { value } => Ok(
            emit_text(d, value@, style.bold, style.italic, true, style.strikeout),
        ),
        Node::Delete { children } => emit_all(
            o,
            Style { strikeout: true, ..style },
            d,
            children@,
        ),
        Node::Link { children } => emit_all(o, link_style(o.links_style, style), d, children@),
        Node::List { ordered, children } => if ordered {
            Err(ToMinimadError::UnsupportedNumberedLists)
        } else {
            close_phrasing(
                emit_items(o, enter_phrasing(d, CompositeStyle::Paragraph), children@),
                saved_model(d),
                true,
            )
        },
        Node::ListItem { .. } => Err(ToMinimadError::UnsupportedChildNode { child: kind_name(node) }),
        _ => Err(ToMinimadError::UnsupportedNode { node: kind_name(node) }),
    };
    match r {
        Ok(d2) => Ok(d2),
        Err(e) => Err(while_emitting(kind_name(node), e)),
    }
}

/// Emits the nodes one after the other, stopping at the first failure.
pub open spec fn emit_all(o: Options, style: Style, d: Doc, nodes: Seq<Node>) -> Result<
    Doc,
    ToMinimadError,
>
    decreases nodes,
{
    if nodes.len() == 0 {
        Ok(d)
    } else {
        match emit_all(o, style, d, nodes.drop_last()) {
            Ok(d1) => emit(o, style, d1, nodes.last()),
            Err(e) => Err(e),
        }
    }
}

/// Emits the items of a list one after the other.
pub open spec fn emit_items(o: Options, d: Doc, items: Seq<Node>) -> Result<Doc, ToMinimadError>
    decreases items,
{
    if items.len() == 0 {
        Ok(d)
    } else {
        match emit_items(o, d, items.drop_last()) {
            Ok(d1) => match item_lines(o, items.last()) {
                Ok(ls) => Ok(Doc { lines: d1.lines + ls, model: d1.model }),
                Err(e) => Err(e),
            },
            Err(e) => Err(e),
        }
    }
}

/// The lines of one list item: its children converted on their own, then
/// given a bullet line and nested.
pub open spec fn item_lines(o: Options, item: Node) -> Result<Seq<LineView>, ToMinimadError>
    decreases item,
{
    match item {
        Node::ListItem { children } => match emit_all(o, plain(), empty_doc(), children@) {
            Ok(sub) => bullet_lines(finished(sub)),
            Err(e) => Err(while_emitting(kind_name(item), e)),
        },
        _ => Err(ToMinimadError::UnsupportedChildNode { child: kind_name(item) }),
    }
}

/// What converting a tree with the given options gives: the lines of the
/// finished emission, or the failure.
pub open spec fn convert(o: Options, root: Node) -> Result<Seq<LineView>, ToMinimadError> {
    match emit(o, plain(), empty_doc(), root) {
        Ok(d) => Ok(finished(d)),
        Err(e) => Err(e),
    }
}

/// Once a prefix of the nodes fails, all of them fail the same way.
pub proof fn lemma_emit_all_stops(o: Options, style: Style, d: Doc, nodes: Seq<Node>, k: int)
    requires
        0 <= k <= nodes.len(),
        emit_all(o, style, d, nodes.take(k)) is Err,
    ensures
        emit_all(o, style, d, nodes) == emit_all(o, style, d, nodes.take(k)),
    decreases nodes.len() - k,
{
    if k < nodes.len() {
        assert(nodes.take(k + 1).drop_last() =~= nodes.take(k));
        lemma_emit_all_stops(o, style, d, nodes, k + 1);
    } else {
        assert(nodes.take(k) =~= nodes);
    }
}

/// Once a prefix of the items fails, all of them fail the same way.
pub proof fn lemma_emit_items_stops(o: Options, d: Doc, items: Seq<Node>, k: int)
    requires
        0 <= k <= items.len(),
        emit_items(o, d, items.take(k)) is Err,
    ensures
        emit_items(o, d, items) == emit_items(o, d, items.take(k)),
    decreases items.len() - k,
{
    if k < items.len() {
        assert(items.take(k + 1).drop_last() =~= items.take(k));
        lemma_emit_items_stops(o, d, items, k + 1);
    } else {
        assert(items.take(k) =~= items);
    }
}

} // verus!
