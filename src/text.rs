//! The target model: a text made of lines of styled runs, ready for a
//! terminal renderer.
use vstd::prelude::*;

verus! {

/// A run of text with its inline styles. It never spans a line break.
#[derive(Debug, Clone, PartialEq, Eq)]
pub struct Compound<'a> {
    pub src: &'a str,
    pub bold: bool,
    pub italic: bool,
    pub code: bool,
    pub strikeout: bool,
}

/// The block style of a composite.
#[derive(Debug, Clone, Copy, PartialEq, Eq, Structural)]
pub enum CompositeStyle {
    Paragraph,
    Header(u8),
    ListItem(u8),
    Code,
    Quote,
}

/// A styled block: a style and the runs of one line.
#[derive(Debug, Clone, PartialEq, Eq)]
pub struct Composite<'a> {
    pub style: CompositeStyle,
    pub compounds: Vec<Compound<'a>>,
}

/// How a table column is aligned.
#[derive(Debug, Clone, Copy, PartialEq, Eq, Structural)]
pub enum Alignment {
    Unspecified,
    Left,
    Center,
    Right,
}

/// A row of table cells.
#[derive(Debug, Clone, PartialEq, Eq)]
pub struct TableRow<'a> {
    pub cells: Vec<Composite<'a>>,
}

/// A separator row of a table, with the alignment of each column.
#[derive(Debug, Clone, PartialEq, Eq)]
pub struct TableRule {
    pub cells: Vec<Alignment>,
}

/// One line of the text.
#[derive(Debug, Clone, PartialEq, Eq)]
pub enum Line<'a> {
    Normal(Composite<'a>),
    TableRow(TableRow<'a>),
    TableRule(TableRule),
    HorizontalRule,
    CodeFence(Composite<'a>),
}

/// A whole converted document.
#[derive(Debug, Clone, PartialEq, Eq)]
pub struct Text<'a> {
    pub lines: Vec<Line<'a>>,
}

/// What a compound holds: its characters and its four style flags.
pub struct CompoundView {
    pub src: Seq<char>,
    pub bold: bool,
    pub italic: bool,
    pub code: bool,
    pub strikeout: bool,
}

/// What a composite holds.
pub struct CompositeView {
    pub style: CompositeStyle,
    pub compounds: Seq<CompoundView>,
}

/// What a line holds.
pub enum LineView {
    Normal(CompositeView),
    TableRow(Seq<CompositeView>),
    TableRule(Seq<Alignment>),
    HorizontalRule,
    CodeFence(CompositeView),
}

impl<'a> View for Compound<'a> {
    type V = CompoundView;

    open spec fn view(&self) -> CompoundView {
        CompoundView {
            src: self.src@,
            bold: self.bold,
            italic: self.italic,
            code: self.code,
            strikeout: self.strikeout,
        }
    }
}

/// The views of a sequence of compounds.
pub open spec fn compounds_view<'a>(cs: Seq<Compound<'a>>) -> Seq<CompoundView> {
    cs.map_values(|c: Compound<'a>| c@)
}

impl<'a> View for Composite<'a> {
    type V = CompositeView;

    open spec fn view(&self) -> CompositeView {
        CompositeView { style: self.style, compounds: compounds_view(self.compounds@) }
    }
}

impl<'a> View for Line<'a> {
    type V = LineView;

    open spec fn view(&self) -> LineView {
        match self {
            Line::Normal(c) => LineView::Normal(c@),
            Line::TableRow(row) => LineView::TableRow(
                row.cells@.map_values(|c: Composite<'a>| c@),
            ),
            Line::TableRule(rule) => LineView::TableRule(rule.cells@),
            Line::HorizontalRule => LineView::HorizontalRule,
            Line::CodeFence(c) => LineView::CodeFence(c@),
        }
    }
}

/// The views of a sequence of lines.
pub open spec fn lines_view<'a>(ls: Seq<Line<'a>>) -> Seq<LineView> {
    ls.map_values(|l: Line<'a>| l@)
}

impl<'a> View for Text<'a> {
    type V = Seq<LineView>;

    open spec fn view(&self) -> Seq<LineView> {
        lines_view(self.lines@)
    }
}

/// A line of the given block style holding the given runs.
pub open spec fn normal_line(style: CompositeStyle, compounds: Seq<CompoundView>) -> LineView {
    LineView::Normal(CompositeView { style, compounds })
}

impl<'a> Line<'a> {
    /// A paragraph line holding the given runs.
    pub fn new_paragraph(compounds: Vec<Compound<'a>>) -> (r: Line<'a>)
        ensures
            r@ == normal_line(CompositeStyle::Paragraph, compounds_view(compounds@)),
    {
        Line::Normal(Composite { style: CompositeStyle::Paragraph, compounds })
    }
}

} // verus!
