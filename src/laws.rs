//! Laws of the conversion, stated over its meaning and proved.
use vstd::prelude::*;
use crate::ast::{Node, kind_name};
use crate::error::{ToMinimadError, root_cause, while_emitting};
use crate::options::Options;
use crate::semantics::{
    Doc,
    ModelView,
    Style,
    break_line,
    bullet_lines,
    convert,
    emit,
    emit_all,
    emit_items,
    emit_runs,
    empty_doc,
    enter_phrasing,
    finished,
    is_deepest_item,
    item_lines,
    leave_phrasing,
    lemma_emit_all_stops,
    lemma_emit_items_stops,
    nested_line,
    saved_model,
    with_bullet,
};
use crate::segment::{lines_of, split_raw};
use crate::text::{CompositeStyle, CompositeView, LineView};

verus! {

/// A list marked as ordered fails with `UnsupportedNumberedLists`, whatever
/// its children and whatever state the emitter is in, wrapped in the frame of
/// the list itself.
pub proof fn lemma_ordered_list_fails(o: Options, style: Style, d: Doc, list: Node)
    requires
        list matches Node::List { ordered, .. } && ordered,
    ensures
        emit(o, style, d, list) == Err::<Doc, ToMinimadError>(
            while_emitting("List", ToMinimadError::UnsupportedNumberedLists),
        ),
        convert(o, list) == Err::<Seq<LineView>, ToMinimadError>(
            while_emitting("List", ToMinimadError::UnsupportedNumberedLists),
        ),
{
}

/// Strong emphasis inside strong emphasis changes nothing: the text stays
/// bold, and the lines and state that come out are those of the inner node
/// alone.
pub proof fn lemma_strong_in_strong(o: Options, style: Style, d: Doc, outer: Node, inner: Node)
    requires
        outer matches Node::Strong { children } && children@ == seq![inner],
        inner is Strong,
    ensures
        emit(o, style, d, outer) is Ok <==> emit(o, style, d, inner) is Ok,
        emit(o, style, d, outer) is Ok ==> emit(o, style, d, outer) == emit(o, style, d, inner),
{
    let bold = Style { bold: true, ..style };
    let children = outer->Strong_children;
    assert(children@.drop_last() =~= Seq::<Node>::empty());
    assert(emit_all(o, bold, d, children@.drop_last()) == Ok::<Doc, ToMinimadError>(d));
    assert(children@.last() == inner);
    assert(emit_all(o, bold, d, children@) == emit(o, bold, d, inner));
    assert(Style { bold: true, ..bold } == bold);
}

/// Every node of the tree is of a supported kind, in a place where that kind
/// is supported: list items only in lists, lists unordered.
pub open spec fn supported(node: Node) -> bool
    decreases node,
{
    match node {
        Node::Root { children } => all_supported(children@),
        Node::Heading { children, .. } => all_supported(children@),
        Node::Paragraph { children } => all_supported(children@),
        Node::Strong { children } => all_supported(children@),
        Node::Emphasis { children } => all_supported(children@),
        Node::Delete { children } => all_supported(children@),
        Node::Link { children } => all_supported(children@),
        Node::Text { .. } => true,
        Node::Code { .. } => true,
        Node::InlineCode { .. } => true,
        Node::List { ordered, children } => !ordered && all_items_supported(children@),
        _ => false,
    }
}

/// Each of the nodes is supported.
pub open spec fn all_supported(nodes: Seq<Node>) -> bool
    decreases nodes,
{
    if nodes.len() == 0 {
        true
    } else {
        all_supported(nodes.drop_last()) && supported(nodes.last())
    }
}

/// Each of a list's children is an item whose children are supported.
pub open spec fn all_items_supported(items: Seq<Node>) -> bool
    decreases items,
{
    if items.len() == 0 {
        true
    } else {
        all_items_supported(items.drop_last()) && item_supported(items.last())
    }
}

/// A list item whose children are supported.
pub open spec fn item_supported(item: Node) -> bool
    decreases item,
{
    match item {
        Node::ListItem { children } => all_supported(children@),
        _ => false,
    }
}

/// How many lists are nested at the deepest point of the tree.
pub open spec fn list_depth(node: Node) -> nat
    decreases node,
{
    match node {
        Node::Root { children } => depth_all(children@),
        Node::Heading { children, .. } => depth_all(children@),
        Node::Paragraph { children } => depth_all(children@),
        Node::Strong { children } => depth_all(children@),
        Node::Emphasis { children } => depth_all(children@),
        Node::Delete { children } => depth_all(children@),
        Node::Link { children } => depth_all(children@),
        Node::List { children, .. } => 1 + depth_all(children@),
        Node::ListItem { children } => depth_all(children@),
        _ => 0,
    }
}

/// The greatest list depth among the nodes.
pub open spec fn depth_all(nodes: Seq<Node>) -> nat
    decreases nodes,
{
    if nodes.len() == 0 {
        0
    } else {
        let before = depth_all(nodes.drop_last());
        let last = list_depth(nodes.last());
        if before >= last {
            before
        } else {
            last
        }
    }
}

/// The line is no list item, or one indented less than `bound`.
pub open spec fn indent_below(l: LineView, bound: nat) -> bool {
    l matches LineView::Normal(CompositeView { style: CompositeStyle::ListItem(k), .. }) ==> k
        < bound
}

/// `after` keeps the lines of `before` and adds only lines indented below
/// `bound`.
pub open spec fn grows(before: Seq<LineView>, after: Seq<LineView>, bound: nat) -> bool {
    &&& before.len() <= after.len()
    &&& forall|j: int| 0 <= j < before.len() ==> after[j] == before[j]
    &&& forall|j: int| before.len() <= j < after.len() ==> #[trigger] indent_below(after[j], bound)
}

/// The line being built, if any, is no list item.
pub open spec fn no_item_model(d: Doc) -> bool {
    !(d.model matches Some(ModelView::Phrasing { style: CompositeStyle::ListItem(_), .. }))
}

proof fn lemma_grows_trans(a: Seq<LineView>, b: Seq<LineView>, c: Seq<LineView>, n: nat, m: nat, k: nat)
    requires
        grows(a, b, n),
        grows(b, c, m),
        n <= k,
        m <= k,
    ensures
        grows(a, c, k),
{
    assert forall|j: int| a.len() <= j < c.len() implies #[trigger] indent_below(c[j], k) by {
        if j < b.len() {
            assert(c[j] == b[j]);
            assert(indent_below(b[j], n));
        } else {
            assert(indent_below(c[j], m));
        }
    }
}

proof fn lemma_grows_push(a: Seq<LineView>, l: LineView, n: nat)
    requires
        indent_below(l, n),
    ensures
        grows(a, a.push(l), n),
{
    assert forall|j: int| a.len() <= j < a.push(l).len() implies #[trigger] indent_below(a.push(l)[j], n) by {
        assert(a.push(l)[j] == l);
    }
}

proof fn lemma_grows_refl(a: Seq<LineView>, n: nat)
    ensures
        grows(a, a, n),
{
}

proof fn lemma_runs_ok(
    d: Doc,
    pieces: Seq<Seq<char>>,
    bold: bool,
    italic: bool,
    code: bool,
    strikeout: bool,
)
    requires
        no_item_model(d),
    ensures
        no_item_model(emit_runs(d, pieces, bold, italic, code, strikeout)),
        grows(d.lines, emit_runs(d, pieces, bold, italic, code, strikeout).lines, 0),
    decreases pieces.len(),
{
    if pieces.len() == 0 {
        lemma_grows_refl(d.lines, 0);
    } else {
        let before = emit_runs(d, pieces.drop_last(), bold, italic, code, strikeout);
        lemma_runs_ok(d, pieces.drop_last(), bold, italic, code, strikeout);
        let at = if pieces.len() > 1 {
            break_line(before)
        } else {
            before
        };
        if let Some(ModelView::Phrasing { style, compounds }) = before.model {
            lemma_grows_push(before.lines, crate::text::normal_line(style, compounds), 0);
        } else {
            lemma_grows_refl(before.lines, 0);
        }
        assert(grows(before.lines, at.lines, 0));
        lemma_grows_trans(d.lines, before.lines, at.lines, 0, 0, 0);
    }
}

proof fn lemma_enter_ok(d: Doc, style: CompositeStyle)
    requires
        no_item_model(d),
        !(style is ListItem),
    ensures
        no_item_model(enter_phrasing(d, style)),
        grows(d.lines, enter_phrasing(d, style).lines, 0),
        !(saved_model(d) matches ModelView::Phrasing { style: CompositeStyle::ListItem(_), .. }),
{
    let e = enter_phrasing(d, style);
    assert forall|j: int| d.lines.len() <= j < e.lines.len() implies #[trigger] indent_below(
        e.lines[j],
        0,
    ) by {}
}

proof fn lemma_leave_ok(d: Doc, saved: ModelView, spacing: bool)
    requires
        no_item_model(d),
        !(saved matches ModelView::Phrasing { style: CompositeStyle::ListItem(_), .. }),
    ensures
        no_item_model(leave_phrasing(d, saved, spacing)),
        grows(d.lines, leave_phrasing(d, saved, spacing).lines, 0),
{
    let e = leave_phrasing(d, saved, spacing);
    assert forall|j: int| d.lines.len() <= j < e.lines.len() implies #[trigger] indent_below(
        e.lines[j],
        0,
    ) by {}
}

proof fn lemma_with_bullet(lines: Seq<LineView>, bound: nat)
    requires
        forall|j: int| 0 <= j < lines.len() ==> #[trigger] indent_below(lines[j], bound),
    ensures
        with_bullet(lines).len() >= 1,
        with_bullet(lines)[0] == crate::text::normal_line(
            CompositeStyle::ListItem(0),
            with_bullet(lines)[0]->Normal_0.compounds,
        ),
        forall|j: int|
            1 <= j < with_bullet(lines).len() ==> #[trigger] indent_below(with_bullet(lines)[j], bound),
{
    let b = with_bullet(lines);
    if lines.len() > 0 && lines[0] matches LineView::Normal(
        CompositeView { style: CompositeStyle::Paragraph, .. },
    ) {
        assert forall|j: int| 1 <= j < b.len() implies #[trigger] indent_below(b[j], bound) by {
            assert(b[j] == lines[j]);
        }
    } else {
        assert forall|j: int| 1 <= j < b.len() implies #[trigger] indent_below(b[j], bound) by {
            assert(b[j] == lines[j - 1]);
        }
    }
}

proof fn lemma_item_lines_ok(o: Options, item: Node)
    requires
        item_supported(item),
        list_depth(item) <= 255,
    ensures
        item_lines(o, item) matches Ok(ls) && forall|j: int|
            0 <= j < ls.len() ==> #[trigger] indent_below(ls[j], list_depth(item) + 1),
    decreases item,
{
    if let Node::ListItem { children } = item {
        let plain = crate::semantics::plain();
        lemma_emit_all_ok(o, plain, empty_doc(), children@);
        let sub = emit_all(o, plain, empty_doc(), children@)->Ok_0;
        let bound = list_depth(item);
        let lines = finished(sub);
        assert forall|j: int| 0 <= j < lines.len() implies #[trigger] indent_below(
            lines[j],
            bound,
        ) by {
            if j < sub.lines.len() {
                assert(lines[j] == sub.lines[j]);
                assert(indent_below(sub.lines[j], depth_all(children@)));
            }
        }
        lemma_with_bullet(lines, bound);
        let b = with_bullet(lines);
        assert forall|j: int| 1 <= j < b.len() implies !#[trigger] is_deepest_item(b[j]) by {
            assert(indent_below(b[j], bound));
        }
        let ls = bullet_lines(lines)->Ok_0;
        assert forall|j: int| 0 <= j < ls.len() implies #[trigger] indent_below(ls[j], bound + 1) by {
            if j > 0 {
                assert(indent_below(b[j], bound));
                assert(ls[j] == nested_line(b[j]));
            }
        }
    }
}

proof fn lemma_emit_items_ok(o: Options, d: Doc, items: Seq<Node>)
    requires
        all_items_supported(items),
        depth_all(items) <= 255,
    ensures
        emit_items(o, d, items) matches Ok(d2) && d2.model == d.model && grows(
            d.lines,
            d2.lines,
            depth_all(items) + 1,
        ),
    decreases items,
{
    if items.len() == 0 {
        lemma_grows_refl(d.lines, 1);
    } else {
        lemma_emit_items_ok(o, d, items.drop_last());
        let d1 = emit_items(o, d, items.drop_last())->Ok_0;
        lemma_item_lines_ok(o, items.last());
        let ls = item_lines(o, items.last())->Ok_0;
        let bound = depth_all(items) + 1;
        let after = d1.lines + ls;
        assert forall|j: int| d1.lines.len() <= j < after.len() implies #[trigger] indent_below(
            after[j],
            list_depth(items.last()) + 1,
        ) by {
            assert(after[j] == ls[j - d1.lines.len()]);
        }
        assert(grows(d1.lines, after, list_depth(items.last()) + 1));
        lemma_grows_trans(d.lines, d1.lines, after, depth_all(items.drop_last()) + 1, list_depth(items.last()) + 1, bound);
    }
}

proof fn lemma_emit_all_ok(o: Options, style: Style, d: Doc, nodes: Seq<Node>)
    requires
        all_supported(nodes),
        depth_all(nodes) <= 256,
        no_item_model(d),
    ensures
        emit_all(o, style, d, nodes) matches Ok(d2) && no_item_model(d2) && grows(
            d.lines,
            d2.lines,
            depth_all(nodes),
        ),
    decreases nodes,
{
    if nodes.len() == 0 {
        lemma_grows_refl(d.lines, 0);
    } else {
        lemma_emit_all_ok(o, style, d, nodes.drop_last());
        let d1 = emit_all(o, style, d, nodes.drop_last())->Ok_0;
        lemma_emit_ok(o, style, d1, nodes.last());
        let d2 = emit(o, style, d1, nodes.last())->Ok_0;
        lemma_grows_trans(
            d.lines,
            d1.lines,
            d2.lines,
            depth_all(nodes.drop_last()),
            list_depth(nodes.last()),
            depth_all(nodes),
        );
    }
}

proof fn lemma_phrasing_ok(
    o: Options,
    style: Style,
    d: Doc,
    block: CompositeStyle,
    children: Seq<Node>,
    spacing: bool,
)
    requires
        no_item_model(d),
        !(block is ListItem),
        emit_all(o, style, enter_phrasing(d, block), children) matches Ok(d2) && no_item_model(d2)
            && grows(enter_phrasing(d, block).lines, d2.lines, depth_all(children)),
    ensures
        ({
            let r = crate::semantics::close_phrasing(
                emit_all(o, style, enter_phrasing(d, block), children),
                saved_model(d),
                spacing,
            );
            r matches Ok(d2) && no_item_model(d2) && grows(d.lines, d2.lines, depth_all(children))
        }),
{
    lemma_enter_ok(d, block);
    let d1 = enter_phrasing(d, block);
    let d2 = emit_all(o, style, d1, children)->Ok_0;
    lemma_leave_ok(d2, saved_model(d), spacing);
    let d3 = leave_phrasing(d2, saved_model(d), spacing);
    lemma_grows_trans(d.lines, d1.lines, d2.lines, 0, depth_all(children), depth_all(children));
    lemma_grows_trans(d.lines, d2.lines, d3.lines, depth_all(children), 0, depth_all(children));
}

proof fn lemma_emit_ok(o: Options, style: Style, d: Doc, node: Node)
    requires
        supported(node),
        list_depth(node) <= 256,
        no_item_model(d),
    ensures
        emit(o, style, d, node) matches Ok(d2) && no_item_model(d2) && grows(
            d.lines,
            d2.lines,
            list_depth(node),
        ),
    decreases node,
{
    match node {
        Node::Root { children } => {
            lemma_emit_all_ok(o, style, d, children@);
        },
        Node::Heading { depth, children } => {
            lemma_enter_ok(d, CompositeStyle::Header(depth));
            lemma_emit_all_ok(o, style, enter_phrasing(d, CompositeStyle::Header(depth)), children@);
            lemma_phrasing_ok(
                o,
                style,
                d,
                CompositeStyle::Header(depth),
                children@,
                crate::options::spacing_after(o, depth),
            );
        },
        Node::Paragraph { children } => {
            lemma_enter_ok(d, CompositeStyle::Paragraph);
            lemma_emit_all_ok(o, style, enter_phrasing(d, CompositeStyle::Paragraph), children@);
            lemma_phrasing_ok(o, style, d, CompositeStyle::Paragraph, children@, true);
        },
        Node::Text { value } => {
            lemma_runs_ok(d, crate::segment::lines_of(value@), style.bold, style.italic, false, style.strikeout);
        },
        Node::InlineCode { value } => {
            lemma_runs_ok(d, crate::segment::lines_of(value@), style.bold, style.italic, true, style.strikeout);
        },
        Node::Code { value } => {
            lemma_enter_ok(d, CompositeStyle::Code);
            let d1 = enter_phrasing(d, CompositeStyle::Code);
            lemma_runs_ok(d1, crate::segment::lines_of(value@), false, false, false, false);
            let d2 = crate::semantics::emit_text(d1, value@, false, false, false, false);
            lemma_leave_ok(d2, saved_model(d), true);
            let d3 = leave_phrasing(d2, saved_model(d), true);
            lemma_grows_trans(d.lines, d1.lines, d2.lines, 0, 0, 0);
            lemma_grows_trans(d.lines, d2.lines, d3.lines, 0, 0, 0);
        },
        Node::Strong { children } => {
            lemma_emit_all_ok(o, Style { bold: true, ..style }, d, children@);
        },
        Node::Emphasis { children } => {
            lemma_emit_all_ok(o, Style { italic: true, ..style }, d, children@);
        },
        Node::Delete { children } => {
            lemma_emit_all_ok(o, Style { strikeout: true, ..style }, d, children@);
        },
        Node::Link { children } => {
            lemma_emit_all_ok(o, crate::semantics::link_style(o.links_style, style), d, children@);
        },
        Node::List { children, .. } => {
            lemma_enter_ok(d, CompositeStyle::Paragraph);
            let d1 = enter_phrasing(d, CompositeStyle::Paragraph);
            lemma_emit_items_ok(o, d1, children@);
            let d2 = emit_items(o, d1, children@)->Ok_0;
            lemma_leave_ok(d2, saved_model(d), true);
            let d3 = leave_phrasing(d2, saved_model(d), true);
            lemma_grows_trans(d.lines, d1.lines, d2.lines, 0, list_depth(node), list_depth(node));
            lemma_grows_trans(d.lines, d2.lines, d3.lines, list_depth(node), 0, list_depth(node));
        },
        _ => {},
    }
}

/// Converting a tree whose nodes are all of supported kinds, in places where
/// they are supported, succeeds, provided its lists nest at most 256 deep
/// (a list item cannot be indented more than 255 levels).
pub proof fn lemma_supported_tree_converts(o: Options, root: Node)
    requires
        supported(root),
        list_depth(root) <= 256,
    ensures
        convert(o, root) is Ok,
{
    lemma_emit_ok(o, crate::semantics::plain(), empty_doc(), root);
}

/// The node is of a kind that the conversion never takes.
pub open spec fn unsupported_kind(node: Node) -> bool {
    match node {
        Node::Root { .. } | Node::Heading { .. } | Node::Paragraph { .. } | Node::Text { .. }
        | Node::Code { .. } | Node::Strong { .. } | Node::Emphasis { .. } | Node::InlineCode { .. }
        | Node::Delete { .. } | Node::Link { .. } | Node::List { .. } | Node::ListItem { .. } => false,
        _ => true,
    }
}

/// The children of a container that emits them in its own place: root,
/// heading, paragraph and the inline containers.
pub open spec fn inline_children(node: Node) -> Option<Seq<Node>> {
    match node {
        Node::Root { children } => Some(children@),
        Node::Heading { children, .. } => Some(children@),
        Node::Paragraph { children } => Some(children@),
        Node::Strong { children } => Some(children@),
        Node::Emphasis { children } => Some(children@),
        Node::Delete { children } => Some(children@),
        Node::Link { children } => Some(children@),
        _ => None,
    }
}

/// Following `path` from `node`, each step a child's index (a list's step
/// picks an item, the next step a child of that item), every node met before
/// the end of the path in document order is supported, and the node at its
/// end is of an unsupported kind.
pub open spec fn first_unsupported_at(node: Node, path: Seq<int>) -> bool
    decreases path.len(),
{
    if path.len() == 0 {
        unsupported_kind(node)
    } else {
        let i = path[0];
        match node {
            Node::List { ordered, children } => {
                &&& !ordered
                &&& 0 <= i < children@.len()
                &&& all_items_supported(children@.take(i))
                &&& path.len() >= 2
                &&& children@[i] matches Node::ListItem { children: inner } && {
                    let j = path[1];
                    &&& 0 <= j < inner@.len()
                    &&& all_supported(inner@.take(j))
                    &&& first_unsupported_at(inner@[j], path.subrange(2, path.len() as int))
                }
            },
            _ => match inline_children(node) {
                Some(cs) => {
                    &&& 0 <= i < cs.len()
                    &&& all_supported(cs.take(i))
                    &&& first_unsupported_at(cs[i], path.drop_first())
                },
                None => false,
            },
        }
    }
}

/// The failure reported for the node at the end of `path`: `UnsupportedNode`
/// with its kind, inside one `WhileEmitting` frame for each node from `node`
/// down to it, both included.
pub open spec fn path_error(node: Node, path: Seq<int>) -> ToMinimadError
    decreases path.len(),
{
    if path.len() == 0 {
        while_emitting(kind_name(node), ToMinimadError::UnsupportedNode { node: kind_name(node) })
    } else {
        match node {
            Node::List { children, .. } => match children@[path[0]] {
                Node::ListItem { children: inner } => while_emitting(
                    kind_name(node),
                    while_emitting(
                        "ListItem",
                        if path.len() >= 2 {
                            path_error(inner@[path[1]], path.subrange(2, path.len() as int))
                        } else {
                            ToMinimadError::ListTooMuchNested
                        },
                    ),
                ),
                _ => ToMinimadError::ListTooMuchNested,
            },
            _ => match inline_children(node) {
                Some(cs) => while_emitting(kind_name(node), path_error(cs[path[0]], path.drop_first())),
                None => ToMinimadError::ListTooMuchNested,
            },
        }
    }
}

/// The node at the end of `path`.
pub open spec fn node_at(node: Node, path: Seq<int>) -> Node
    decreases path.len(),
{
    if path.len() == 0 {
        node
    } else {
        match node {
            Node::List { children, .. } => match children@[path[0]] {
                Node::ListItem { children: inner } => if path.len() >= 2 {
                    node_at(inner@[path[1]], path.subrange(2, path.len() as int))
                } else {
                    node
                },
                _ => node,
            },
            _ => match inline_children(node) {
                Some(cs) => node_at(cs[path[0]], path.drop_first()),
                None => node,
            },
        }
    }
}

proof fn lemma_depth_take(nodes: Seq<Node>, i: int)
    requires
        0 <= i <= nodes.len(),
    ensures
        depth_all(nodes.take(i)) <= depth_all(nodes),
    decreases nodes.len() - i,
{
    if i < nodes.len() {
        assert(nodes.take(i + 1).drop_last() =~= nodes.take(i));
        lemma_depth_take(nodes, i + 1);
    } else {
        assert(nodes.take(i) =~= nodes);
    }
}

proof fn lemma_depth_index(nodes: Seq<Node>, i: int)
    requires
        0 <= i < nodes.len(),
    ensures
        list_depth(nodes[i]) <= depth_all(nodes),
{
    assert(nodes.take(i + 1).drop_last() =~= nodes.take(i));
    assert(nodes.take(i + 1).last() == nodes[i]);
    lemma_depth_take(nodes, i + 1);
}

/// The state in which the `i`-th node is emitted, when those before it are
/// supported; if that node fails, all of them fail the same way.
proof fn lemma_prefix_state(o: Options, style: Style, d: Doc, nodes: Seq<Node>, i: int) -> (di: Doc)
    requires
        0 <= i < nodes.len(),
        all_supported(nodes.take(i)),
        depth_all(nodes) <= 256,
        no_item_model(d),
    ensures
        emit_all(o, style, d, nodes.take(i)) == Ok::<Doc, ToMinimadError>(di),
        no_item_model(di),
        list_depth(nodes[i]) <= depth_all(nodes),
        emit(o, style, di, nodes[i]) is Err ==> emit_all(o, style, d, nodes) == emit(
            o,
            style,
            di,
            nodes[i],
        ),
{
    lemma_depth_take(nodes, i);
    lemma_depth_index(nodes, i);
    lemma_emit_all_ok(o, style, d, nodes.take(i));
    let di = emit_all(o, style, d, nodes.take(i))->Ok_0;
    assert(nodes.take(i + 1).drop_last() =~= nodes.take(i));
    assert(nodes.take(i + 1).last() == nodes[i]);
    if emit(o, style, di, nodes[i]) is Err {
        lemma_emit_all_stops(o, style, d, nodes, i + 1);
    }
    di
}

proof fn lemma_first_unsupported_fails(o: Options, style: Style, d: Doc, node: Node, path: Seq<int>)
    requires
        first_unsupported_at(node, path),
        list_depth(node) <= 256,
        no_item_model(d),
    ensures
        emit(o, style, d, node) == Err::<Doc, ToMinimadError>(path_error(node, path)),
    decreases path.len(),
{
    if path.len() > 0 {
        let i = path[0];
        match node {
            Node::List { children, .. } => {
                let items = children@;
                lemma_enter_ok(d, CompositeStyle::Paragraph);
                let d1 = enter_phrasing(d, CompositeStyle::Paragraph);
                lemma_depth_take(items, i);
                lemma_depth_index(items, i);
                lemma_emit_items_ok(o, d1, items.take(i));
                let item = items[i];
                let inner = item->ListItem_children@;
                let j = path[1];
                let rest = path.subrange(2, path.len() as int);
                let plain = crate::semantics::plain();
                let dj = lemma_prefix_state(o, plain, empty_doc(), inner, j);
                lemma_first_unsupported_fails(o, plain, dj, inner[j], rest);
                assert(item_lines(o, item) == Err::<Seq<LineView>, ToMinimadError>(
                    while_emitting("ListItem", path_error(inner[j], rest)),
                ));
                assert(items.take(i + 1).drop_last() =~= items.take(i));
                assert(items.take(i + 1).last() == items[i]);
                lemma_emit_items_stops(o, d1, items, i + 1);
            },
            _ => {
                let cs = inline_children(node)->Some_0;
                let rest = path.drop_first();
                match node {
                    Node::Heading { depth, .. } => {
                        lemma_enter_ok(d, CompositeStyle::Header(depth));
                        let d1 = enter_phrasing(d, CompositeStyle::Header(depth));
                        let di = lemma_prefix_state(o, style, d1, cs, i);
                        lemma_first_unsupported_fails(o, style, di, cs[i], rest);
                    },
                    Node::Paragraph { .. } => {
                        lemma_enter_ok(d, CompositeStyle::Paragraph);
                        let d1 = enter_phrasing(d, CompositeStyle::Paragraph);
                        let di = lemma_prefix_state(o, style, d1, cs, i);
                        lemma_first_unsupported_fails(o, style, di, cs[i], rest);
                    },
                    Node::Strong { .. } => {
                        let s = Style { bold: true, ..style };
                        let di = lemma_prefix_state(o, s, d, cs, i);
                        lemma_first_unsupported_fails(o, s, di, cs[i], rest);
                    },
                    Node::Emphasis { .. } => {
                        let s = Style { italic: true, ..style };
                        let di = lemma_prefix_state(o, s, d, cs, i);
                        lemma_first_unsupported_fails(o, s, di, cs[i], rest);
                    },
                    Node::Delete { .. } => {
                        let s = Style { strikeout: true, ..style };
                        let di = lemma_prefix_state(o, s, d, cs, i);
                        lemma_first_unsupported_fails(o, s, di, cs[i], rest);
                    },
                    Node::Link { .. } => {
                        let s = crate::semantics::link_style(o.links_style, style);
                        let di = lemma_prefix_state(o, s, d, cs, i);
                        lemma_first_unsupported_fails(o, s, di, cs[i], rest);
                    },
                    _ => {
                        let di = lemma_prefix_state(o, style, d, cs, i);
                        lemma_first_unsupported_fails(o, style, di, cs[i], rest);
                    },
                }
            },
        }
    }
}

proof fn lemma_root_cause_frame(node: &'static str, e: ToMinimadError)
    ensures
        root_cause(while_emitting(node, e)) == root_cause(e),
{
}

proof fn lemma_path_error_cause(node: Node, path: Seq<int>)
    requires
        first_unsupported_at(node, path),
    ensures
        root_cause(path_error(node, path)) == (ToMinimadError::UnsupportedNode {
            node: kind_name(node_at(node, path)),
        }),
    decreases path.len(),
{
    if path.len() == 0 {
        let leaf = ToMinimadError::UnsupportedNode { node: kind_name(node) };
        lemma_root_cause_frame(kind_name(node), leaf);
    } else {
        match node {
            Node::List { children, .. } => {
                let inner = children@[path[0]]->ListItem_children@;
                let rest = path.subrange(2, path.len() as int);
                lemma_path_error_cause(inner[path[1]], rest);
                let e = path_error(inner[path[1]], rest);
                lemma_root_cause_frame("ListItem", e);
                lemma_root_cause_frame(kind_name(node), while_emitting("ListItem", e));
            },
            _ => {
                let cs = inline_children(node)->Some_0;
                lemma_path_error_cause(cs[path[0]], path.drop_first());
                lemma_root_cause_frame(kind_name(node), path_error(cs[path[0]], path.drop_first()));
            },
        }
    }
}

/// Where the first node in document order that the conversion cannot take
/// is of an unsupported kind, converting fails with `UnsupportedNode` naming
/// that kind, wrapped in one `WhileEmitting` frame for each node on the path
/// from the root down to it, both included; provided the lists before it nest
/// at most 256 deep.
pub proof fn lemma_unsupported_node_fails(o: Options, root: Node, path: Seq<int>)
    requires
        first_unsupported_at(root, path),
        list_depth(root) <= 256,
    ensures
        convert(o, root) == Err::<Seq<LineView>, ToMinimadError>(path_error(root, path)),
        root_cause(path_error(root, path)) == (ToMinimadError::UnsupportedNode {
            node: kind_name(node_at(root, path)),
        }),
{
    lemma_first_unsupported_fails(o, crate::semantics::plain(), empty_doc(), root, path);
    lemma_path_error_cause(root, path);
}

/// The pieces put back together, a line feed between each two.
pub open spec fn join_lines(pieces: Seq<Seq<char>>) -> Seq<char>
    decreases pieces.len(),
{
    if pieces.len() == 0 {
        Seq::empty()
    } else if pieces.len() == 1 {
        pieces[0]
    } else {
        join_lines(pieces.drop_last()) + seq!['\n'] + pieces.last()
    }
}

proof fn lemma_split_raw_joins(s: Seq<char>)
    ensures
        split_raw(s).len() >= 1,
        join_lines(split_raw(s)) == s,
    decreases s.len(),
{
    if s.len() > 0 {
        let before = split_raw(s.drop_last());
        lemma_split_raw_joins(s.drop_last());
        let after = split_raw(s);
        let c = s.last();
        assert(s =~= s.drop_last().push(c));
        if c == '\n' {
            assert(after.drop_last() =~= before);
            assert(join_lines(after) == join_lines(before) + seq!['\n'] + Seq::<char>::empty());
            assert(join_lines(after) =~= s);
        } else if before.len() == 1 {
            assert(join_lines(after) == before[0].push(c));
            assert(join_lines(after) =~= s);
        } else {
            let a = join_lines(before.drop_last()) + seq!['\n'];
            assert(after.drop_last() =~= before.drop_last());
            assert(join_lines(before) == a + before.last());
            assert(join_lines(after) == a + before.last().push(c));
            assert(a + before.last().push(c) =~= (a + before.last()).push(c));
            assert(join_lines(after) =~= s);
        }
    }
}

/// Without carriage returns in the value, no piece holds one.
proof fn lemma_pieces_without_cr(s: Seq<char>)
    requires
        forall|i: int| 0 <= i < s.len() ==> s[i] != '\r',
    ensures
        forall|k: int, i: int|
            0 <= k < split_raw(s).len() && 0 <= i < split_raw(s)[k].len() ==> split_raw(s)[k][i]
                != '\r',
    decreases s.len(),
{
    if s.len() > 0 {
        lemma_pieces_without_cr(s.drop_last());
        crate::segment::lemma_split_raw_nonempty(s.drop_last());
    }
}

/// Breaking a value without carriage returns into lines and joining them
/// again with line feeds gives the value back.
pub proof fn lemma_lines_round_trip(s: Seq<char>)
    requires
        forall|i: int| 0 <= i < s.len() ==> s[i] != '\r',
    ensures
        join_lines(lines_of(s)) == s,
{
    lemma_split_raw_joins(s);
    lemma_pieces_without_cr(s);
    let raw = split_raw(s);
    assert forall|k: int| 0 <= k < raw.len() implies #[trigger] lines_of(s)[k] == raw[k] by {
        if raw[k].len() > 0 {
            assert(raw[k][raw[k].len() - 1] != '\r');
        }
    }
    assert(lines_of(s) =~= raw);
}

/// A paragraph holding a single text node.
pub open spec fn is_text_paragraph(node: Node) -> bool {
    match node {
        Node::Paragraph { children } => children@.len() == 1 && children@[0] is Text,
        _ => false,
    }
}

/// `item` is a list item holding, `depth - 1` levels down, one unordered
/// list of one item each, and at the bottom a paragraph of one text.
pub open spec fn chain_item(item: Node, depth: nat) -> bool
    decreases depth,
{
    match item {
        Node::ListItem { children } => children@.len() == 1 && if depth <= 1 {
            depth == 1 && is_text_paragraph(children@[0])
        } else {
            match children@[0] {
                Node::List { ordered, children: items } => !ordered && items@.len() == 1
                    && chain_item(items@[0], (depth - 1) as nat),
                _ => false,
            }
        },
        _ => false,
    }
}

/// `list` is an unordered list of one item, with lists nested `depth` deep
/// counting itself (see `chain_item`).
pub open spec fn nested_lists(list: Node, depth: nat) -> bool {
    match list {
        Node::List { ordered, children } => !ordered && children@.len() == 1 && chain_item(
            children@[0],
            depth,
        ),
        _ => false,
    }
}

/// A list item line of indent `indent`.
pub open spec fn item_line_at(l: LineView, indent: int) -> bool {
    l matches LineView::Normal(CompositeView { style: CompositeStyle::ListItem(k), .. }) && k
        == indent
}

proof fn lemma_bullet_first(lines: Seq<LineView>)
    ensures
        bullet_lines(lines) matches Ok(ls) ==> ls.len() >= 1 && item_line_at(ls[0], 0),
{
}

/// Emitting a list of one item from a fresh state gives the item's lines.
proof fn lemma_single_item_list(o: Options, list: Node)
    requires
        list matches Node::List { ordered, children } && !ordered && children@.len() == 1,
    ensures
        ({
            let item = list->List_children@[0];
            let r = emit_all(o, crate::semantics::plain(), empty_doc(), seq![list]);
            &&& item_lines(o, item) matches Ok(ls) ==> r matches Ok(sub) && finished(sub) == ls
            &&& item_lines(o, item) is Err ==> r is Err
            &&& emit(o, crate::semantics::plain(), empty_doc(), list) == match item_lines(o, item) {
                Ok(ls) => Ok(Doc { lines: ls, model: Some(ModelView::Flow { spacing: true }) }),
                Err(e) => Err::<Doc, ToMinimadError>(while_emitting("List", e)),
            }
        }),
{
    let plain = crate::semantics::plain();
    let items = list->List_children@;
    let d1 = enter_phrasing(empty_doc(), CompositeStyle::Paragraph);
    assert(items.drop_last() =~= Seq::<Node>::empty());
    assert(emit_items(o, d1, items.drop_last()) == Ok::<Doc, ToMinimadError>(d1));
    assert(items.last() == items[0]);
    if let Ok(ls) = item_lines(o, items[0]) {
        assert(Seq::<LineView>::empty() + ls =~= ls);
    }
    let one = seq![list];
    assert(one.drop_last() =~= Seq::<Node>::empty());
    assert(emit_all(o, plain, empty_doc(), one.drop_last()) == Ok::<Doc, ToMinimadError>(empty_doc()));
    assert(one.last() == list);
}

proof fn lemma_chain_base(o: Options, item: Node)
    requires
        chain_item(item, 1),
    ensures
        item_lines(o, item) matches Ok(ls) && ls.len() >= 1 && item_line_at(ls[0], 0) && (forall|
            j: int,
        | 0 <= j < ls.len() ==> #[trigger] indent_below(ls[j], 1)),
{
    let children = item->ListItem_children@;
    let p = children[0];
    let texts = p->Paragraph_children@;
    assert(texts.drop_last() =~= Seq::<Node>::empty());
    assert(texts.last() == texts[0]);
    assert(all_supported(texts.drop_last()));
    assert(depth_all(texts.drop_last()) == 0);
    assert(supported(texts.last()));
    assert(list_depth(texts.last()) == 0);
    assert(all_supported(texts));
    assert(depth_all(texts) == 0);
    assert(children.drop_last() =~= Seq::<Node>::empty());
    assert(children.last() == children[0]);
    assert(all_supported(children.drop_last()));
    assert(depth_all(children.drop_last()) == 0);
    assert(supported(children.last()));
    assert(list_depth(children.last()) == 0);
    assert(all_supported(children));
    assert(depth_all(children) == 0);
    lemma_item_lines_ok(o, item);
    lemma_bullet_first(finished(emit_all(o, crate::semantics::plain(), empty_doc(), children)->Ok_0));
    assert(list_depth(item) == 0);
    let ls = item_lines(o, item)->Ok_0;
    assert(item_line_at(ls[0], 0));
}

proof fn lemma_chain_item_lines(o: Options, item: Node, depth: nat)
    requires
        chain_item(item, depth),
        1 <= depth <= 256,
    ensures
        item_lines(o, item) matches Ok(ls) && ls.len() >= 1 && item_line_at(ls[0], 0) && (forall|
            j: int,
        | 0 <= j < ls.len() ==> #[trigger] indent_below(ls[j], depth)) && exists|j: int|
            0 <= j < ls.len() && #[trigger] item_line_at(ls[j], depth - 1),
    decreases depth,
{
    let children = item->ListItem_children@;
    if depth == 1 {
        lemma_chain_base(o, item);
        let ls = item_lines(o, item)->Ok_0;
        assert(0 <= 0 < ls.len() && item_line_at(ls[0], depth - 1));
    } else {
        let list = children[0];
        let inner = list->List_children@[0];
        lemma_chain_item_lines(o, inner, (depth - 1) as nat);
        let lsk = item_lines(o, inner)->Ok_0;
        lemma_single_item_list(o, list);
        assert(children =~= seq![list]);
        let lines = finished(emit_all(o, crate::semantics::plain(), empty_doc(), children)->Ok_0);
        assert(lines == lsk);
        let b = with_bullet(lines);
        assert(b == seq![crate::text::normal_line(CompositeStyle::ListItem(0), seq![])] + lsk);
        assert forall|j: int| 1 <= j < b.len() implies !#[trigger] is_deepest_item(b[j]) by {
            assert(b[j] == lsk[j - 1]);
            assert(indent_below(lsk[j - 1], (depth - 1) as nat));
        }
        let ls = bullet_lines(lines)->Ok_0;
        let j0 = choose|j: int| 0 <= j < lsk.len() && #[trigger] item_line_at(lsk[j], depth - 2);
        assert(b[j0 + 1] == lsk[j0]);
        assert(ls[j0 + 1] == nested_line(b[j0 + 1]));
        assert(0 <= j0 + 1 < ls.len() && item_line_at(ls[j0 + 1], depth - 1));
        assert(ls[0] == b[0]);
        assert(item_line_at(ls[0], 0));
        assert forall|j: int| 0 <= j < ls.len() implies #[trigger] indent_below(ls[j], depth) by {
            if j > 0 {
                assert(b[j] == lsk[j - 1]);
                assert(indent_below(lsk[j - 1], (depth - 1) as nat));
                assert(ls[j] == nested_line(b[j]));
            }
        }
    }
}

/// A list with up to 255 lists nested below it converts; one with 256 lists
/// nested below it fails with `ListTooMuchNested`, in the frame of the outer
/// list, since a list item cannot be indented more than 255 levels.
pub proof fn lemma_nested_lists(o: Options, list: Node, depth: nat)
    requires
        nested_lists(list, depth),
    ensures
        depth <= 256 ==> convert(o, list) is Ok,
        depth == 257 ==> convert(o, list) == Err::<Seq<LineView>, ToMinimadError>(
            while_emitting("List", ToMinimadError::ListTooMuchNested),
        ),
{
    let item = list->List_children@[0];
    lemma_single_item_list(o, list);
    if depth <= 256 {
        lemma_chain_item_lines(o, item, depth);
    } else if depth == 257 {
        let children = item->ListItem_children@;
        let inner_list = children[0];
        let inner = inner_list->List_children@[0];
        lemma_chain_item_lines(o, inner, 256);
        let lsk = item_lines(o, inner)->Ok_0;
        lemma_single_item_list(o, inner_list);
        assert(children =~= seq![inner_list]);
        let lines = finished(emit_all(o, crate::semantics::plain(), empty_doc(), children)->Ok_0);
        assert(lines == lsk);
        let b = with_bullet(lines);
        assert(b == seq![crate::text::normal_line(CompositeStyle::ListItem(0), seq![])] + lsk);
        let j0 = choose|j: int| 0 <= j < lsk.len() && #[trigger] item_line_at(lsk[j], 255);
        assert(b[j0 + 1] == lsk[j0]);
        assert(is_deepest_item(b[j0 + 1]));
        assert(item_lines(o, item) == Err::<Seq<LineView>, ToMinimadError>(
            ToMinimadError::ListTooMuchNested,
        ));
    }
}

} // verus!
