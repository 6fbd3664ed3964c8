//! The conversion engine: a walk over the source tree that emits lines.
use vstd::prelude::*;
use crate::ast::{Node, type_of};
use crate::error::ToMinimadError;
use crate::options::Options;
use crate::segment::{lines_of, split_lines, strs_view};
use crate::semantics::{
    Doc,
    ModelView,
    Style,
    break_line,
    bullet_lines,
    emit,
    emit_all,
    emit_items,
    emit_runs,
    emit_text,
    fails_at_once,
    finished,
    flush_pending,
    keeps,
    empty_doc,
    empty_line,
    enter_phrasing,
    indent_run,
    is_deepest_item,
    item_lines,
    leave_phrasing,
    lemma_emit_all_stops,
    lemma_emit_items_stops,
    link_style,
    nested_line,
    push_run,
    saved_model,
    with_bullet,
};
use crate::text::{
    Composite,
    CompositeStyle,
    Compound,
    Line,
    LineView,
    Text,
    compounds_view,
    lines_view,
    normal_line,
};

verus! {

/// The content model of the emitter.
pub enum ContentModel<'a> {
    /// Flow content: the sections of the document.
    Flow {
        /// Whether the last flow element needs spacing after it
        spacing: bool,
    },
    /// Phrasing content: the text of a block, with its markup.
    Phrasing {
        /// Style of the lines
        style: CompositeStyle,
        /// Line being built
        compounds: Vec<Compound<'a>>,
    },
}

impl<'a> View for ContentModel<'a> {
    type V = ModelView;

    open spec fn view(&self) -> ModelView {
        match self {
            ContentModel::Flow { spacing } => ModelView::Flow { spacing: *spacing },
            ContentModel::Phrasing { style, compounds } => ModelView::Phrasing {
                style: *style,
                compounds: compounds_view(compounds@),
            },
        }
    }
}

impl<'a> ContentModel<'a> {
    /// Whether a blank line is owed before the next block.
    pub fn need_spacing(&self) -> (r: bool)
        ensures
            r == (self@ == (ModelView::Flow { spacing: true })),
    {
        match self {
            ContentModel::Flow { spacing } => *spacing,
            // spacing means nothing between phrasing elements
            ContentModel::Phrasing { .. } => false,
        }
    }

    /// Records whether a blank line is owed; only flow content keeps it.
    pub fn set_spacing(&mut self, new_spacing: bool)
        ensures
            final(self)@ == match old(self)@ {
                ModelView::Flow { .. } => ModelView::Flow { spacing: new_spacing },
                m => m,
            },
    {
        if let ContentModel::Flow { .. } = *self {
            *self = ContentModel::Flow { spacing: new_spacing };
        }
    }
}

/// All lines are styled blocks: the only kind of line that emitting makes.
pub open spec fn all_normal(lines: Seq<LineView>) -> bool {
    forall|j: int| 0 <= j < lines.len() ==> #[trigger] lines[j] is Normal
}

/// The emitter: the lines emitted so far, the content model and the options.
pub struct Emitter<'a> {
    lines: Vec<Line<'a>>,
    model: Option<ContentModel<'a>>,
    options: Options,
}

impl<'a> View for Emitter<'a> {
    type V = Doc;

    closed spec fn view(&self) -> Doc {
        Doc {
            lines: lines_view(self.lines@),
            model: match self.model {
                Some(m) => Some(m@),
                None => None,
            },
        }
    }
}

pub proof fn lemma_lines_push<'a>(ls: Seq<Line<'a>>, l: Line<'a>)
    ensures
        lines_view(ls.push(l)) == lines_view(ls).push(l@),
{
    assert(lines_view(ls.push(l)) =~= lines_view(ls).push(l@));
}

pub proof fn lemma_compounds_push<'a>(cs: Seq<Compound<'a>>, c: Compound<'a>)
    ensures
        compounds_view(cs.push(c)) == compounds_view(cs).push(c@),
{
    assert(compounds_view(cs.push(c)) =~= compounds_view(cs).push(c@));
}

impl<'a> Emitter<'a> {
    pub closed spec fn options(&self) -> Options {
        self.options
    }

    /// Whether every emitted line is a styled block.
    pub closed spec fn wf(&self) -> bool {
        all_normal(lines_view(self.lines@))
    }

    /// A new, empty emitter.
    pub fn new(options: Options) -> (r: Self)
        ensures
            r@ == empty_doc(),
            r.options() == options,
            r.wf(),
    {
        let r = Emitter { lines: Vec::new(), model: None, options };
        proof {
            assert(lines_view(r.lines@) =~= seq![]);
        }
        r
    }

    /// Completes the emission: the lines emitted, then the line still in
    /// progress if it holds any run.
    pub fn finish(self) -> (r: Text<'a>)
        requires
            self.wf(),
        ensures
            r@ == finished(self@),
            all_normal(r@),
    {
        let mut emitter = self;
        let pending = emitter.model.take();
        if let Some(ContentModel::Phrasing { style, compounds }) = pending {
            if compounds.len() > 0 {
                emitter.push_line(style, compounds);
            }
        }
        Text { lines: emitter.lines }
    }

    /// Emits a styled line.
    fn push_line(&mut self, style: CompositeStyle, compounds: Vec<Compound<'a>>)
        requires
            old(self).wf(),
        ensures
            final(self)@ == (Doc {
                lines: old(self)@.lines.push(normal_line(style, compounds_view(compounds@))),
                model: old(self)@.model,
            }),
            final(self).wf(),
            final(self).options() == old(self).options(),
            keeps(old(self)@.lines, final(self)@.lines),
    {
        let line = Line::Normal(Composite { style, compounds });
        proof {
            lemma_lines_push(self.lines@, line);
        }
        self.lines.push(line);
        proof {
            let ls = lines_view(self.lines@);
            assert forall|j: int| 0 <= j < ls.len() implies #[trigger] ls[j] is Normal by {
                if j < ls.len() - 1 {
                    assert(ls[j] == lines_view(old(self).lines@)[j]);
                }
            }
        }
    }

    /// Emits an empty line.
    fn emptyline(&mut self)
        requires
            old(self).wf(),
        ensures
            final(self)@ == (Doc { lines: old(self)@.lines.push(empty_line()), model: old(self)@.model }),
            final(self).wf(),
            final(self).options() == old(self).options(),
            keeps(old(self)@.lines, final(self)@.lines),
    {
        let empty: Vec<Compound<'a>> = Vec::new();
        proof {
            assert(compounds_view(empty@) =~= seq![]);
        }
        let line = Line::new_paragraph(empty);
        proof {
            lemma_lines_push(self.lines@, line);
        }
        self.lines.push(line);
        proof {
            let ls = lines_view(self.lines@);
            assert forall|j: int| 0 <= j < ls.len() implies #[trigger] ls[j] is Normal by {
                if j < ls.len() - 1 {
                    assert(ls[j] == lines_view(old(self).lines@)[j]);
                }
            }
        }
    }

    /// Appends a run to the current line; outside phrasing (only in invalid
    /// trees), a paragraph is begun.
    fn push_compound(&mut self, c: Compound<'a>)
        requires
            old(self).wf(),
        ensures
            final(self)@ == push_run(old(self)@, c@),
            final(self).wf(),
            final(self).options() == old(self).options(),
            keeps(old(self)@.lines, final(self)@.lines),
    {
        let model = self.model.take();
        match model {
            Some(ContentModel::Phrasing { style, compounds }) => {
                let mut compounds = compounds;
                proof {
                    lemma_compounds_push(compounds@, c);
                }
                compounds.push(c);
                self.model = Some(ContentModel::Phrasing { style, compounds });
            },
            _ => {
                let compounds = vec![c];
                proof {
                    assert(compounds_view(compounds@) =~= seq![c@]);
                }
                self.model = Some(
                    ContentModel::Phrasing { style: CompositeStyle::Paragraph, compounds },
                );
            },
        }
    }

    /// Starts a new line; outside phrasing (only in invalid trees), nothing
    /// happens.
    fn newline(&mut self)
        requires
            old(self).wf(),
        ensures
            final(self)@ == break_line(old(self)@),
            final(self).wf(),
            final(self).options() == old(self).options(),
            keeps(old(self)@.lines, final(self)@.lines),
    {
        let model = self.model.take();
        match model {
            Some(ContentModel::Phrasing { style, compounds }) => {
                self.push_line(style, compounds);
                let fresh: Vec<Compound<'a>> = Vec::new();
                proof {
                    assert(compounds_view(fresh@) =~= seq![]);
                }
                self.model = Some(ContentModel::Phrasing { style, compounds: fresh });
            },
            other => {
                self.model = other;
            },
        }
    }

    /// Opens a phrasing scope of the given style; returns the model to put
    /// back when it closes.
    fn enter_phrasing(&mut self, style: CompositeStyle) -> (saved: ContentModel<'a>)
        requires
            old(self).wf(),
        ensures
            final(self)@ == enter_phrasing(old(self)@, style),
            saved@ == saved_model(old(self)@),
            final(self).wf(),
            final(self).options() == old(self).options(),
            keeps(old(self)@.lines, final(self)@.lines),
    {
        let old_model = match self.model.take() {
            Some(m) => m,
            None => ContentModel::Flow { spacing: false },
        };
        let saved = match old_model {
            ContentModel::Phrasing { style: s, compounds } => {
                // a line in the middle of being built: this happens only in
                // invalid trees, and its content is kept
                self.push_line(s, compounds);
                let fresh: Vec<Compound<'a>> = Vec::new();
                proof {
                    assert(compounds_view(fresh@) =~= seq![]);
                }
                ContentModel::Phrasing { style: s, compounds: fresh }
            },
            flow => flow,
        };
        if saved.need_spacing() {
            self.emptyline();
        }
        let fresh: Vec<Compound<'a>> = Vec::new();
        proof {
            assert(compounds_view(fresh@) =~= seq![]);
        }
        self.model = Some(ContentModel::Phrasing { style, compounds: fresh });
        saved
    }

    /// Closes a phrasing scope: the line in progress is emitted and the
    /// saved model comes back, with the spacing that the closed block asks.
    fn leave_phrasing(&mut self, saved: ContentModel<'a>, spacing: bool)
        requires
            old(self).wf(),
        ensures
            final(self)@ == leave_phrasing(old(self)@, saved@, spacing),
            final(self).wf(),
            final(self).options() == old(self).options(),
            keeps(old(self)@.lines, final(self)@.lines),
    {
        let mut restored = saved;
        restored.set_spacing(spacing);
        let residuals = self.model.take();
        self.model = Some(restored);
        // if some runs remain, they make the last line of the block
        if let Some(ContentModel::Phrasing { style, compounds }) = residuals {
            if compounds.len() > 0 {
                self.push_line(style, compounds);
            }
        }
    }

    /// Emits a text value as runs with the given flags, one line for each of
    /// its lines.
    fn fmt_text(&mut self, value: &'a str, bold: bool, italic: bool, code: bool, strikeout: bool)
        requires
            old(self).wf(),
        ensures
            final(self)@ == emit_text(old(self)@, value@, bold, italic, code, strikeout),
            final(self).wf(),
            final(self).options() == old(self).options(),
            keeps(old(self)@.lines, final(self)@.lines),
    {
        let pieces = split_lines(value);
        let ghost all = lines_of(value@);
        let mut k: usize = 0;
        while k < pieces.len()
            invariant
                k <= pieces@.len(),
                strs_view(pieces@) == all,
                self@ == emit_runs(old(self)@, all.take(k as int), bold, italic, code, strikeout),
                keeps(old(self)@.lines, self@.lines),
                self.wf(),
                self.options() == old(self).options(),
            decreases pieces@.len() - k,
        {
            proof {
                assert(all.take(k + 1).drop_last() =~= all.take(k as int));
                assert(all.take(k + 1).last() == pieces@[k as int]@);
            }
            if k > 0 {
                self.newline();
            }
            self.push_compound(Compound { src: pieces[k], bold, italic, code, strikeout });
            k = k + 1;
        }
        proof {
            assert(all.take(k as int) =~= all);
        }
    }

    /// The style of a link's contents under the options.
    fn link_style(&self, style: Style) -> (r: Style)
        ensures
            r == link_style(self.options().links_style, style),
    {
        let links = self.options.links_style;
        Style {
            bold: links.bold.unwrap_or(style.bold),
            italic: links.italic.unwrap_or(style.italic),
            strikeout: links.strikeout.unwrap_or(style.strikeout),
        }
    }

    /// Emits a node with the given inline style; a failure is wrapped with
    /// the node's kind.
    pub fn node(&mut self, node: &Node<'a>, style: Style) -> (r: Result<(), ToMinimadError>)
        requires
            old(self).wf(),
        ensures
            final(self).wf(),
            final(self).options() == old(self).options(),
            keeps(old(self)@.lines, final(self)@.lines),
            fails_at_once(*node) ==> final(self)@ == old(self)@,
            match emit(old(self).options(), style, old(self)@, *node) {
                Ok(d) => r is Ok && final(self)@ == d,
                Err(e) => r == Err::<(), ToMinimadError>(e),
            },
        decreases node,
    {
        let res = match node {
            Node::Root { children } => self.children(children, style),
            Node::Heading { depth, children } => {
                let saved = self.enter_phrasing(CompositeStyle::Header(*depth));
                let res = self.children(children, style);
                let spacing = self.options.header_spacing(*depth);
                self.leave_phrasing(saved, spacing);
                res
            },
            Node::Paragraph { children } => {
                let saved = self.enter_phrasing(CompositeStyle::Paragraph);
                let res = self.children(children, style);
                self.leave_phrasing(saved, true);
                res
            },
            Node::Text { value } => {
                self.fmt_text(value, style.bold, style.italic, false, style.strikeout);
                Ok(())
            },
            Node::Code { value } => {
                let saved = self.enter_phrasing(CompositeStyle::Code);
                // code keeps no inline style, as in minimad's own parsing
                self.fmt_text(value, false, false, false, false);
                self.leave_phrasing(saved, true);
                Ok(())
            },
            Node::Strong { children } => self.children(children, Style { bold: true, ..style }),
            Node::Emphasis { children } => self.children(children, Style { italic: true, ..style }),
            Node::InlineCode { value } => {
                self.fmt_text(value, style.bold, style.italic, true, style.strikeout);
                Ok(())
            },
            Node::Delete { children } => self.children(
                children,
                Style { strikeout: true, ..style },
            ),
            Node::Link { children } => {
                let link = self.link_style(style);
                self.children(children, link)
            },
            Node::List { ordered, children } => {
                if *ordered {
                    Err(ToMinimadError::UnsupportedNumberedLists)
                } else {
                    let saved = self.enter_phrasing(CompositeStyle::Paragraph);
                    let res = self.list_items(children);
                    self.leave_phrasing(saved, true);
                    res
                }
            },
            // nodes that are supported only as the child of another
            Node::ListItem { .. } => Err(ToMinimadError::UnsupportedChildNode { child: type_of(node) }),
            _ => Err(ToMinimadError::UnsupportedNode { node: type_of(node) }),
        };
        match res {
            Ok(()) => Ok(()),
            Err(e) => Err(e.while_emitting(type_of(node))),
        }
    }

    /// Emits the nodes in order, stopping at the first failure.
    pub fn children(&mut self, nodes: &Vec<Node<'a>>, style: Style) -> (r: Result<(), ToMinimadError>)
        requires
            old(self).wf(),
        ensures
            final(self).wf(),
            final(self).options() == old(self).options(),
            keeps(old(self)@.lines, final(self)@.lines),
            match emit_all(old(self).options(), style, old(self)@, nodes@) {
                Ok(d) => r is Ok && final(self)@ == d,
                Err(e) => r == Err::<(), ToMinimadError>(e),
            },
        decreases nodes,
    {
        let ghost o = self.options();
        let ghost d0 = self@;
        let mut i: usize = 0;
        while i < nodes.len()
            invariant
                i <= nodes@.len(),
                self.wf(),
                self.options() == o,
                o == old(self).options(),
                d0 == old(self)@,
                keeps(d0.lines, self@.lines),
                emit_all(o, style, d0, nodes@.take(i as int)) == Ok::<Doc, ToMinimadError>(self@),
            decreases nodes@.len() - i,
        {
            proof {
                assert(nodes@.take(i + 1).drop_last() =~= nodes@.take(i as int));
            }
            match self.node(&nodes[i], style) {
                Ok(()) => {},
                Err(e) => {
                    proof {
                        lemma_emit_all_stops(o, style, d0, nodes@, i + 1);
                    }
                    return Err(e);
                },
            }
            i = i + 1;
        }
        proof {
            assert(nodes@.take(i as int) =~= nodes@);
        }
        Ok(())
    }

    /// Appends the given lines to those emitted.
    fn append_lines(&mut self, lines: Vec<Line<'a>>)
        requires
            old(self).wf(),
            all_normal(lines_view(lines@)),
        ensures
            final(self)@ == (Doc {
                lines: old(self)@.lines + lines_view(lines@),
                model: old(self)@.model,
            }),
            final(self).wf(),
            final(self).options() == old(self).options(),
            keeps(old(self)@.lines, final(self)@.lines),
    {
        let mut lines = lines;
        let ghost added = lines@;
        self.lines.append(&mut lines);
        proof {
            assert(lines_view(self.lines@) =~= lines_view(old(self).lines@) + lines_view(added));
        }
    }

    /// Emits the items of a list, in order.
    fn list_items(&mut self, items: &Vec<Node<'a>>) -> (r: Result<(), ToMinimadError>)
        requires
            old(self).wf(),
        ensures
            final(self).wf(),
            final(self).options() == old(self).options(),
            keeps(old(self)@.lines, final(self)@.lines),
            match emit_items(old(self).options(), old(self)@, items@) {
                Ok(d) => r is Ok && final(self)@ == d,
                Err(e) => r == Err::<(), ToMinimadError>(e),
            },
        decreases items,
    {
        let ghost o = self.options();
        let ghost d0 = self@;
        let mut i: usize = 0;
        while i < items.len()
            invariant
                i <= items@.len(),
                self.wf(),
                self.options() == o,
                o == old(self).options(),
                d0 == old(self)@,
                keeps(d0.lines, self@.lines),
                emit_items(o, d0, items@.take(i as int)) == Ok::<Doc, ToMinimadError>(self@),
            decreases items@.len() - i,
        {
            proof {
                assert(items@.take(i + 1).drop_last() =~= items@.take(i as int));
            }
            match self.list_item(&items[i]) {
                Ok(lines) => {
                    self.append_lines(lines);
                },
                Err(e) => {
                    proof {
                        lemma_emit_items_stops(o, d0, items@, i + 1);
                    }
                    return Err(e);
                },
            }
            i = i + 1;
        }
        proof {
            assert(items@.take(i as int) =~= items@);
        }
        Ok(())
    }

    /// Converts a list item on its own and returns its lines, bullet first.
    fn list_item(&self, item: &Node<'a>) -> (r: Result<Vec<Line<'a>>, ToMinimadError>)
        ensures
            match item_lines(self.options(), *item) {
                Ok(ls) => r matches Ok(v) && lines_view(v@) == ls && all_normal(ls),
                Err(e) => r == Err::<Vec<Line<'a>>, ToMinimadError>(e),
            },
        decreases item,
    {
        match item {
            Node::ListItem { children } => {
                let mut sub = Emitter::new(self.options);
                match sub.children(children, Style { bold: false, italic: false, strikeout: false }) {
                    Ok(()) => {
                        let text = sub.finish();
                        bullet(text.lines)
                    },
                    Err(e) => Err(e.while_emitting(type_of(item))),
                }
            },
            _ => Err(ToMinimadError::UnsupportedChildNode { child: type_of(item) }),
        }
    }
}

/// Gives a converted list item its bullet line and nests the lines after it.
#[verifier::loop_isolation(false)]
fn bullet<'a>(lines: Vec<Line<'a>>) -> (r: Result<Vec<Line<'a>>, ToMinimadError>)
    requires
        all_normal(lines_view(lines@)),
    ensures
        match bullet_lines(lines_view(lines@)) {
            Ok(ls) => r matches Ok(v) && lines_view(v@) == ls && all_normal(ls),
            Err(e) => r == Err::<Vec<Line<'a>>, ToMinimadError>(e),
        },
{
    let ghost input = lines_view(lines@);
    let mut lines = lines;
    let first_is_paragraph = lines.len() > 0 && match &lines[0] {
        Line::Normal(Composite { style: CompositeStyle::Paragraph, .. }) => true,
        _ => false,
    };
    let ghost b = with_bullet(input);
    if first_is_paragraph {
        let first = lines.remove(0);
        if let Line::Normal(c) = first {
            let head = Line::Normal(Composite { style: CompositeStyle::ListItem(0), compounds: c.compounds });
            lines.insert(0, head);
            proof {
                assert(input[0] == first@);
                assert(b == input.update(0, head@));
                assert(lines_view(lines@) =~= b);
            }
        }
    } else {
        let empty: Vec<Compound<'a>> = Vec::new();
        let head = Line::Normal(Composite { style: CompositeStyle::ListItem(0), compounds: empty });
        proof {
            assert(compounds_view(empty@) =~= seq![]);
        }
        lines.insert(0, head);
        proof {
            assert(b == seq![head@] + input);
            assert(lines_view(lines@) =~= b);
        }
    }
    let mut j: usize = 1;
    while j < lines.len()
        invariant
            1 <= j <= lines@.len(),
            lines@.len() == b.len(),
            b == with_bullet(input),
            all_normal(input),
            lines_view(lines@)[0] == b[0],
            forall|k: int| 1 <= k < j ==> #[trigger] lines_view(lines@)[k] == nested_line(b[k]),
            forall|k: int| j <= k < b.len() ==> #[trigger] lines_view(lines@)[k] == b[k],
            forall|k: int| 1 <= k < j ==> !#[trigger] is_deepest_item(b[k]),
        decreases lines@.len() - j,
    {
        let ghost pre = lines@;
        let mut line = Line::HorizontalRule;
        std::mem::swap(&mut line, &mut lines[j]);
        let ghost before = b[j as int];
        proof {
            assert(lines_view(pre)[j as int] == pre[j as int]@);
            assert(line == pre[j as int]);
            assert(line@ == before);
        }
        let nested = match line {
            Line::Normal(Composite { style, compounds }) => match style {
                CompositeStyle::ListItem(indent) => {
                    if indent == 255 {
                        proof {
                            assert(is_deepest_item(b[j as int]));
                            assert(bullet_lines(input) == Err::<Seq<LineView>, ToMinimadError>(
                                ToMinimadError::ListTooMuchNested,
                            ));
                        }
                        return Err(ToMinimadError::ListTooMuchNested);
                    }
                    Line::Normal(Composite { style: CompositeStyle::ListItem(indent + 1), compounds })
                },
                _ => {
                    let mut compounds = compounds;
                    let ghost rest = compounds@;
                    let indent = Compound { src: "  ", bold: false, italic: false, code: false, strikeout: false };
                    proof {
                        reveal_strlit("  ");
                        assert(indent@.src =~= seq![' ', ' ']);
                    }
                    compounds.insert(0, indent);
                    proof {
                        assert(compounds_view(compounds@) =~= seq![indent_run()] + compounds_view(rest));
                    }
                    Line::Normal(Composite { style, compounds })
                },
            },
            other => other,
        };
        proof {
            assert(nested@ == nested_line(before));
        }
        lines.set(j, nested);
        proof {
            assert forall|k: int| 1 <= k < j + 1 implies #[trigger] lines_view(lines@)[k]
                == nested_line(b[k]) by {
                if k < j {
                    assert(lines_view(lines@)[k] == lines@[k]@);
                    assert(lines_view(pre)[k] == pre[k]@);
                }
            }
            assert forall|k: int| j + 1 <= k < b.len() implies #[trigger] lines_view(lines@)[k]
                == b[k] by {
                assert(lines_view(lines@)[k] == lines@[k]@);
                assert(lines_view(pre)[k] == pre[k]@);
            }
            assert(lines_view(lines@)[0] == lines@[0]@);
            assert(lines_view(pre)[0] == pre[0]@);
        }
        j = j + 1;
    }
    proof {
        assert(forall|k: int| 1 <= k < b.len() ==> !is_deepest_item(#[trigger] b[k]));
        assert(lines_view(lines@) =~= bullet_lines(input)->Ok_0);
    }
    Ok(lines)
}

} // verus!
