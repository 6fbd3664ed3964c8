use mdast2minimad::segment::split_lines;
use mdast2minimad::{
    to_minimad, to_minimad_with_options, Composite, CompositeStyle, Compound, Line, Node, Options,
    Styling, ToMinimadError,
};

fn text(value: &str) -> Node<'_> {
    Node::Text { value }
}

fn paragraph(children: Vec<Node<'_>>) -> Node<'_> {
    Node::Paragraph { children }
}

fn item(children: Vec<Node<'_>>) -> Node<'_> {
    Node::ListItem { children }
}

fn list(children: Vec<Node<'_>>) -> Node<'_> {
    Node::List { ordered: false, children }
}

fn root(children: Vec<Node<'_>>) -> Node<'_> {
    Node::Root { children }
}

fn plain(src: &str) -> Compound<'_> {
    Compound { src, bold: false, italic: false, code: false, strikeout: false }
}

fn line<'a>(style: CompositeStyle, compounds: Vec<Compound<'a>>) -> Line<'a> {
    Line::Normal(Composite { style, compounds })
}

fn frame(node: &'static str, inner: ToMinimadError) -> ToMinimadError {
    ToMinimadError::WhileEmitting { node, source: Box::new(inner) }
}

#[test]
fn heading_then_paragraph() {
    let ast = root(vec![
        Node::Heading { depth: 1, children: vec![text("Hi")] },
        paragraph(vec![text("body")]),
    ]);
    let out = to_minimad(&ast).unwrap();
    assert_eq!(
        out.lines,
        vec![
            line(CompositeStyle::Header(1), vec![plain("Hi")]),
            line(CompositeStyle::Paragraph, vec![]),
            line(CompositeStyle::Paragraph, vec![plain("body")]),
        ]
    );
}

#[test]
fn second_level_heading_has_no_spacing() {
    let ast = root(vec![
        Node::Heading { depth: 2, children: vec![text("Hi")] },
        paragraph(vec![text("body")]),
    ]);
    let out = to_minimad(&ast).unwrap();
    assert_eq!(
        out.lines,
        vec![
            line(CompositeStyle::Header(2), vec![plain("Hi")]),
            line(CompositeStyle::Paragraph, vec![plain("body")]),
        ]
    );
}

#[test]
fn paragraphs_are_separated_by_a_blank_line() {
    let ast = root(vec![paragraph(vec![text("a")]), paragraph(vec![text("b")])]);
    let out = to_minimad(&ast).unwrap();
    assert_eq!(
        out.lines,
        vec![
            line(CompositeStyle::Paragraph, vec![plain("a")]),
            line(CompositeStyle::Paragraph, vec![]),
            line(CompositeStyle::Paragraph, vec![plain("b")]),
        ]
    );
}

#[test]
fn list_of_two_items() {
    let ast = list(vec![
        item(vec![paragraph(vec![text("x")])]),
        item(vec![paragraph(vec![text("y")])]),
    ]);
    let out = to_minimad(&ast).unwrap();
    assert_eq!(
        out.lines,
        vec![
            line(CompositeStyle::ListItem(0), vec![plain("x")]),
            line(CompositeStyle::ListItem(0), vec![plain("y")]),
        ]
    );
}

#[test]
fn text_with_line_feed_gives_two_lines() {
    let ast = root(vec![paragraph(vec![Node::Strong { children: vec![text("a\nb")] }])]);
    let out = to_minimad(&ast).unwrap();
    let bold = |src| Compound { src, bold: true, italic: false, code: false, strikeout: false };
    assert_eq!(
        out.lines,
        vec![
            line(CompositeStyle::Paragraph, vec![bold("a")]),
            line(CompositeStyle::Paragraph, vec![bold("b")]),
        ]
    );
}

#[test]
fn crlf_and_blank_lines_are_kept() {
    let ast = paragraph(vec![text("a\r\n\nb\r")]);
    let out = to_minimad(&ast).unwrap();
    assert_eq!(
        out.lines,
        vec![
            line(CompositeStyle::Paragraph, vec![plain("a")]),
            line(CompositeStyle::Paragraph, vec![plain("")]),
            line(CompositeStyle::Paragraph, vec![plain("b\r")]),
        ]
    );
}

#[test]
fn nested_strong_stays_bold() {
    let twice = paragraph(vec![Node::Strong {
        children: vec![Node::Strong { children: vec![text("a")] }],
    }]);
    let once = paragraph(vec![Node::Strong { children: vec![text("a")] }]);
    let a = to_minimad(&twice).unwrap();
    let b = to_minimad(&once).unwrap();
    assert_eq!(a, b);
    let bold = Compound { src: "a", bold: true, italic: false, code: false, strikeout: false };
    assert_eq!(a.lines, vec![line(CompositeStyle::Paragraph, vec![bold])]);
}

#[test]
fn style_is_restored_after_emphasis() {
    let ast = paragraph(vec![
        Node::Emphasis { children: vec![Node::Delete { children: vec![text("a")] }] },
        text("b"),
    ]);
    let out = to_minimad(&ast).unwrap();
    let a = Compound { src: "a", bold: false, italic: true, code: false, strikeout: true };
    assert_eq!(out.lines, vec![line(CompositeStyle::Paragraph, vec![a, plain("b")])]);
}

#[test]
fn inline_code_and_code_block() {
    let ast = root(vec![
        paragraph(vec![Node::Strong { children: vec![Node::InlineCode { value: "f()" }] }]),
        Node::Code { value: "x\ny" },
    ]);
    let out = to_minimad(&ast).unwrap();
    let inline = Compound { src: "f()", bold: true, italic: false, code: true, strikeout: false };
    assert_eq!(
        out.lines,
        vec![
            line(CompositeStyle::Paragraph, vec![inline]),
            line(CompositeStyle::Paragraph, vec![]),
            line(CompositeStyle::Code, vec![plain("x")]),
            line(CompositeStyle::Code, vec![plain("y")]),
        ]
    );
}

#[test]
fn links_follow_the_options() {
    let ast = paragraph(vec![Node::Emphasis {
        children: vec![Node::Link { children: vec![text("l")] }],
    }]);
    let inherited = to_minimad(&ast).unwrap();
    let l = Compound { src: "l", bold: false, italic: true, code: false, strikeout: false };
    assert_eq!(inherited.lines, vec![line(CompositeStyle::Paragraph, vec![l])]);

    let mut options = Options::default();
    options.links_style = Styling { bold: Some(true), italic: Some(false), strikeout: None };
    let styled = to_minimad_with_options(&ast, options).unwrap();
    let l = Compound { src: "l", bold: true, italic: false, code: false, strikeout: false };
    assert_eq!(styled.lines, vec![line(CompositeStyle::Paragraph, vec![l])]);
}

#[test]
fn nested_list_is_indented() {
    let ast = list(vec![item(vec![
        paragraph(vec![text("top")]),
        list(vec![item(vec![paragraph(vec![text("sub")])])]),
        paragraph(vec![text("after")]),
    ])]);
    let out = to_minimad(&ast).unwrap();
    assert_eq!(
        out.lines,
        vec![
            line(CompositeStyle::ListItem(0), vec![plain("top")]),
            line(CompositeStyle::Paragraph, vec![plain("  ")]),
            line(CompositeStyle::ListItem(1), vec![plain("sub")]),
            line(CompositeStyle::Paragraph, vec![plain("  ")]),
            line(CompositeStyle::Paragraph, vec![plain("  "), plain("after")]),
        ]
    );
}

#[test]
fn item_without_paragraph_gets_an_empty_bullet() {
    let ast = list(vec![item(vec![Node::Code { value: "c" }]), item(vec![])]);
    let out = to_minimad(&ast).unwrap();
    assert_eq!(
        out.lines,
        vec![
            line(CompositeStyle::ListItem(0), vec![]),
            line(CompositeStyle::Code, vec![plain("  "), plain("c")]),
            line(CompositeStyle::ListItem(0), vec![]),
        ]
    );
}

fn nested_lists(levels: usize) -> Node<'static> {
    let mut node = list(vec![item(vec![paragraph(vec![text("x")])])]);
    for _ in 1..levels {
        node = list(vec![item(vec![node])]);
    }
    node
}

#[test]
fn list_nested_to_the_deepest_indent_converts() {
    // the outer list and 255 levels below it: the innermost item is at indent 255
    let out = to_minimad(&nested_lists(256)).unwrap();
    assert!(out.lines.contains(&line(CompositeStyle::ListItem(255), vec![plain("x")])));
}

#[test]
fn list_nested_one_level_too_deep_fails() {
    // the outer list and 256 levels below it
    let err = to_minimad(&nested_lists(257)).unwrap_err();
    assert_eq!(err, frame("List", ToMinimadError::ListTooMuchNested));
    assert_eq!(*err.root_cause(), ToMinimadError::ListTooMuchNested);
}

#[test]
fn ordered_list_fails() {
    let empty = Node::List { ordered: true, children: vec![] };
    let err = to_minimad(&empty).unwrap_err();
    assert_eq!(err, frame("List", ToMinimadError::UnsupportedNumberedLists));
    let full = Node::List { ordered: true, children: vec![item(vec![paragraph(vec![text("x")])])] };
    let err = to_minimad(&full).unwrap_err();
    assert_eq!(err, frame("List", ToMinimadError::UnsupportedNumberedLists));
}

#[test]
fn unsupported_node_reports_its_path() {
    let ast = root(vec![paragraph(vec![text("ok")]), paragraph(vec![Node::Image])]);
    let err = to_minimad(&ast).unwrap_err();
    let expected = frame(
        "Root",
        frame(
            "Paragraph",
            frame("Image", ToMinimadError::UnsupportedNode { node: "Image" }),
        ),
    );
    assert_eq!(err, expected);
    assert_eq!(*err.root_cause(), ToMinimadError::UnsupportedNode { node: "Image" });
}

#[test]
fn unsupported_node_inside_list_item() {
    let ast = list(vec![item(vec![Node::Table])]);
    let err = to_minimad(&ast).unwrap_err();
    let expected = frame(
        "List",
        frame("ListItem", frame("Table", ToMinimadError::UnsupportedNode { node: "Table" })),
    );
    assert_eq!(err, expected);
}

#[test]
fn list_item_outside_a_list_fails() {
    let ast = root(vec![item(vec![])]);
    let err = to_minimad(&ast).unwrap_err();
    let expected = frame(
        "Root",
        frame("ListItem", ToMinimadError::UnsupportedChildNode { child: "ListItem" }),
    );
    assert_eq!(err, expected);
}

#[test]
fn list_child_that_is_not_an_item_fails() {
    let ast = list(vec![paragraph(vec![text("x")])]);
    let err = to_minimad(&ast).unwrap_err();
    let expected = frame("List", ToMinimadError::UnsupportedChildNode { child: "Paragraph" });
    assert_eq!(err, expected);
}

#[test]
fn header_spacing_by_depth() {
    let options = Options::default();
    assert!(options.header_spacing(1));
    assert!(!options.header_spacing(2));
    assert!(!options.header_spacing(6));
    assert!(!options.header_spacing(0));
    assert!(!options.header_spacing(7));
    let mut options = options;
    options.header_spacing = [false, false, false, false, false, true];
    assert!(options.header_spacing(6));
    assert!(!options.header_spacing(1));
}

#[test]
fn split_lines_breaks_at_line_ends() {
    assert_eq!(split_lines("a\nb"), vec!["a", "b"]);
    assert_eq!(split_lines("a\r\nb\n"), vec!["a", "b", ""]);
    assert_eq!(split_lines(""), vec![""]);
    assert_eq!(split_lines("\r"), vec!["\r"]);
    assert_eq!(split_lines("é\r\n\n€"), vec!["é", "", "€"]);
}

#[test]
fn text_outside_a_block_opens_a_paragraph() {
    let ast = root(vec![text("loose")]);
    let out = to_minimad(&ast).unwrap();
    assert_eq!(out.lines, vec![line(CompositeStyle::Paragraph, vec![plain("loose")])]);
}

#[test]
fn text_with_line_feed_at_the_root_gives_two_lines() {
    let ast = text("a\nb");
    let out = to_minimad(&ast).unwrap();
    assert_eq!(
        out.lines,
        vec![
            line(CompositeStyle::Paragraph, vec![plain("a")]),
            line(CompositeStyle::Paragraph, vec![plain("b")]),
        ]
    );
}

#[test]
fn empty_blocks_emit_no_line() {
    assert!(to_minimad(&root(vec![paragraph(vec![])])).unwrap().lines.is_empty());
    assert!(to_minimad(&list(vec![])).unwrap().lines.is_empty());
    let ast = root(vec![paragraph(vec![text("a")]), paragraph(vec![]), paragraph(vec![text("b")])]);
    let out = to_minimad(&ast).unwrap();
    assert_eq!(
        out.lines,
        vec![
            line(CompositeStyle::Paragraph, vec![plain("a")]),
            line(CompositeStyle::Paragraph, vec![]),
            line(CompositeStyle::Paragraph, vec![]),
            line(CompositeStyle::Paragraph, vec![plain("b")]),
        ]
    );
}

#[test]
fn empty_root_gives_empty_text() {
    let out = to_minimad(&root(vec![])).unwrap();
    assert!(out.lines.is_empty());
}

#[test]
fn split_lines_joined_give_the_value_back() {
    let value = "a\nb\n\nc\n";
    assert_eq!(split_lines(value).join("\n"), value);
}

#[test]
fn kind_names() {
    assert_eq!(mdast2minimad::ast::type_of(&Node::BlockQuote), "BlockQuote");
    assert_eq!(mdast2minimad::ast::type_of(&root(vec![])), "Root");
    assert_eq!(mdast2minimad::ast::type_of(&Node::ThematicBreak), "ThematicBreak");
}

#[test]
fn block_inside_heading_keeps_all_text() {
    let ast = Node::Heading {
        depth: 1,
        children: vec![text("a"), paragraph(vec![text("b")]), text("c")],
    };
    let out = to_minimad(&ast).unwrap();
    assert_eq!(
        out.lines,
        vec![
            line(CompositeStyle::Header(1), vec![plain("a")]),
            line(CompositeStyle::Paragraph, vec![plain("b")]),
            line(CompositeStyle::Header(1), vec![plain("c")]),
        ]
    );
}

#[test]
fn code_block_ignores_surrounding_style() {
    let ast = Node::Strong { children: vec![Node::Code { value: "k" }] };
    let out = to_minimad(&ast).unwrap();
    assert_eq!(out.lines, vec![line(CompositeStyle::Code, vec![plain("k")])]);
}

#[test]
fn error_wrapping_keeps_the_cause() {
    let err = ToMinimadError::UnsupportedNode { node: "Html" }.while_emitting("Root");
    assert_eq!(err, frame("Root", ToMinimadError::UnsupportedNode { node: "Html" }));
    assert_eq!(*err.root_cause(), ToMinimadError::UnsupportedNode { node: "Html" });
}
