use html2sl::emit::{emit, emit_lines, holds_parents_first, name_is_reserved};
use html2sl::html2sl;
use html2sl::parse::{document_of, dom2sl};
use html2sl::tree::{Attribute, Document, Element, Node};

fn element(name: &str, children: Vec<u32>) -> Element {
    Element {
        name: name.to_string(),
        id: None,
        classes: Vec::new(),
        attributes: Vec::new(),
        children,
    }
}

#[test]
fn nested_elements_end_to_end() {
    let out = html2sl("<div id=\"a\"><p>hi</p></div>");
    let expected = [
        "    div()",
        "        .id(\"a\")",
        "        .child(",
        "        p()",
        "            .child(\"hi\")",
        "        )",
    ]
    .join("\n");
    assert_eq!(out, expected);
}

#[test]
fn end_to_end_structure() {
    let out = html2sl("<div id=\"a\"><p>hi</p></div>");
    let lines: Vec<&str> = out.split('\n').collect();
    assert_eq!(lines.iter().filter(|l| l.trim() == "div()").count(), 1);
    assert_eq!(lines.iter().filter(|l| l.trim() == ".id(\"a\")").count(), 1);
    assert_eq!(lines.iter().filter(|l| l.trim() == "p()").count(), 1);
    assert_eq!(lines.iter().filter(|l| l.trim() == ".child(\"hi\")").count(), 1);
    assert!(lines.iter().all(|l| !l.trim().is_empty()));
    assert_eq!(lines[0].trim(), "div()");
}

#[test]
fn id_and_classes_come_before_other_attributes() {
    let out = html2sl("<div data-y=\"z\" class=\"a b\" id=\"x\"></div>");
    let expected = [
        "    div()",
        "        .id(\"x\")",
        "        .class(\"a\")",
        "        .class(\"b\")",
        "        .data-y(\"z\")",
    ]
    .join("\n");
    assert_eq!(out, expected);
    let other = html2sl("<div id=\"x\" class=\"a b\" data-y=\"z\"></div>");
    assert_eq!(other, expected);
}

#[test]
fn reserved_attribute_names_are_escaped() {
    let out = html2sl("<input type=\"text\">");
    assert_eq!(out, "    input()\n        .r#type(\"text\")");
    let out = html2sl("<label for=\"n\"></label>");
    assert_eq!(out, "    label()\n        .r#for(\"n\")");
    let out = html2sl("<script async=\"1\"></script>");
    assert_eq!(out, "    script()\n        .r#async(\"1\")");
    let out = html2sl("<a href=\"u\"></a>");
    assert_eq!(out, "    a()\n        .href(\"u\")");
}

#[test]
fn reserved_names_are_exactly_three() {
    assert!(name_is_reserved(&"async".to_string()));
    assert!(name_is_reserved(&"for".to_string()));
    assert!(name_is_reserved(&"type".to_string()));
    assert!(!name_is_reserved(&"types".to_string()));
    assert!(!name_is_reserved(&"Type".to_string()));
    assert!(!name_is_reserved(&"".to_string()));
}

#[test]
fn attribute_without_value_is_a_bare_call() {
    let out = html2sl("<input disabled>");
    assert_eq!(out, "    input()\n        .disabled()");
}

#[test]
fn reserved_name_without_value_is_not_escaped() {
    let out = html2sl("<script async></script>");
    assert_eq!(out, "    script()\n        .async()");
}

#[test]
fn comments_write_nothing() {
    let out = html2sl("<div><!-- note --><p>x</p><!-- more --></div>");
    let expected = [
        "    div()",
        "        .child(",
        "        p()",
        "            .child(\"x\")",
        "        )",
    ]
    .join("\n");
    assert_eq!(out, expected);
}

#[test]
fn comment_only_document_gives_empty_text() {
    assert_eq!(html2sl("<!-- only -->"), "");
}

#[test]
fn empty_document_gives_empty_text() {
    assert_eq!(html2sl(""), "");
    assert_eq!(html2sl("   \n  "), "");
}

#[test]
fn blank_text_writes_nothing_and_text_is_trimmed() {
    let doc = Document {
        nodes: vec![
            Node::Element(element("p", vec![1, 2])),
            Node::Text("   \n  ".to_string()),
            Node::Text("  hello  ".to_string()),
        ],
        roots: vec![0],
    };
    let raw = emit_lines(&doc);
    assert_eq!(raw, "    .child(\n    p()\n        .child(\"hello\")\n    )\n");
    assert_eq!(emit(&doc), "    p()\n        .child(\"hello\")");
}

#[test]
fn text_is_trimmed_end_to_end() {
    let out = html2sl("<p>  hello  </p>");
    assert_eq!(out, "    p()\n        .child(\"hello\")");
    let out = html2sl("<p>   \n  </p>");
    assert_eq!(out, "    p()");
}

#[test]
fn top_level_text_alone_loses_its_only_line() {
    assert_eq!(html2sl("hello"), "");
}

#[test]
fn handle_past_the_table_is_skipped() {
    let doc = Document {
        nodes: vec![Node::Element(element("div", vec![7, 1])), Node::Element(element("b", vec![]))],
        roots: vec![0, 9],
    };
    let raw = emit_lines(&doc);
    assert_eq!(
        raw,
        "    .child(\n    div()\n        .child(\n        b()\n        )\n    )\n"
    );
}

#[test]
fn nesting_stops_at_the_size_of_the_table() {
    let doc = Document { nodes: vec![Node::Element(element("a", vec![0]))], roots: vec![0] };
    let raw = emit_lines(&doc);
    assert_eq!(raw, "    .child(\n    a()\n    )\n");
}

#[test]
fn comment_node_in_table_writes_nothing() {
    let doc = Document { nodes: vec![Node::Comment], roots: vec![0] };
    assert_eq!(emit_lines(&doc), "");
    assert_eq!(emit(&doc), "");
}

#[test]
fn id_and_class_entries_in_the_attribute_list_are_passed_over() {
    let mut e = element("div", vec![]);
    e.id = Some("x".to_string());
    e.classes = vec!["a".to_string(), "b".to_string()];
    e.attributes = vec![
        Attribute { name: "data-y".to_string(), value: Some("z".to_string()) },
        Attribute { name: "id".to_string(), value: Some("x".to_string()) },
        Attribute { name: "hidden".to_string(), value: None },
        Attribute { name: "class".to_string(), value: Some("a b".to_string()) },
    ];
    let doc = Document { nodes: vec![Node::Element(e)], roots: vec![0] };
    let raw = emit_lines(&doc);
    let expected = [
        "    .child(",
        "    div()",
        "        .id(\"x\")",
        "        .class(\"a\")",
        "        .class(\"b\")",
        "        .data-y(\"z\")",
        "        .hidden()",
        "    )",
        "",
    ]
    .join("\n");
    assert_eq!(raw, expected);
}

#[test]
fn two_top_level_elements() {
    let out = html2sl("<a></a><b></b>");
    let expected = ["    a()", "    )", "    .child(", "    b()"].join("\n");
    assert_eq!(out, expected);
}

#[test]
fn quotes_are_not_escaped() {
    let doc = Document { nodes: vec![Node::Text("say \"hi\"".to_string())], roots: vec![0, 0, 0] };
    assert_eq!(emit(&doc), "    .child(\"say \"hi\"\")");
}

#[test]
fn document_of_reads_the_parsed_tree() {
    let dom = tl::parse(
        "<div id=\"a\" class=\"x  y\" title=\"t\" hidden><p>hi</p><!-- c --> tail</div>",
        tl::ParserOptions::default(),
    )
    .unwrap();
    let doc = document_of(&dom);
    assert_eq!(doc.roots.len(), 1);
    let root = match &doc.nodes[doc.roots[0] as usize] {
        Node::Element(e) => e,
        _ => panic!("the root is an element"),
    };
    assert_eq!(root.name, "div");
    assert_eq!(root.id, Some("a".to_string()));
    assert_eq!(root.classes, vec!["x".to_string(), "y".to_string()]);
    let names: Vec<&str> = root.attributes.iter().map(|a| a.name.as_str()).collect();
    assert_eq!(names, vec!["title", "hidden", "id", "class"]);
    assert_eq!(root.attributes[0].value, Some("t".to_string()));
    assert_eq!(root.attributes[1].value, None);
    assert_eq!(root.attributes[3].value, Some("x  y".to_string()));
    assert_eq!(root.children.len(), 3);
    match &doc.nodes[root.children[0] as usize] {
        Node::Element(p) => {
            assert_eq!(p.name, "p");
            assert_eq!(p.children.len(), 1);
            assert!(matches!(&doc.nodes[p.children[0] as usize], Node::Text(t) if t == "hi"));
        }
        _ => panic!("the first child is an element"),
    }
    assert!(matches!(&doc.nodes[root.children[1] as usize], Node::Comment));
    assert!(matches!(&doc.nodes[root.children[2] as usize], Node::Text(t) if t == " tail"));
    assert_eq!(doc.nodes.len(), dom.nodes().len());
}

#[test]
fn conversion_agrees_with_emit_of_the_document() {
    let html = "<ul class=\"l\"><li>one</li><li>two</li></ul>";
    let dom = tl::parse(html, tl::ParserOptions::default()).unwrap();
    assert_eq!(html2sl(html), emit(&document_of(&dom)));
    assert_eq!(html2sl(html), dom2sl(&dom));
    assert_eq!(
        dom2sl(&dom),
        [
            "    ul()",
            "        .class(\"l\")",
            "        .child(",
            "        li()",
            "            .child(\"one\")",
            "        )",
            "        .child(",
            "        li()",
            "            .child(\"two\")",
            "        )",
        ]
        .join("\n")
    );
}

#[test]
fn many_attributes_each_appear_once_after_id_and_class() {
    let out = html2sl("<a href=\"u\" title=\"t\" id=\"i\" rel=\"r\" class=\"c\" target=\"x\" download></a>");
    let lines: Vec<&str> = out.split('\n').collect();
    assert_eq!(lines.len(), 8);
    assert_eq!(lines[0], "    a()");
    assert_eq!(lines[1], "        .id(\"i\")");
    assert_eq!(lines[2], "        .class(\"c\")");
    let mut rest: Vec<&str> = lines[3..].to_vec();
    rest.sort();
    let mut expected = vec![
        "        .href(\"u\")",
        "        .title(\"t\")",
        "        .rel(\"r\")",
        "        .target(\"x\")",
        "        .download()",
    ];
    expected.sort();
    assert_eq!(rest, expected);
}

#[test]
fn trailing_newline_after_the_markup_changes_nothing() {
    assert_eq!(html2sl("<div></div>\n"), "    div()");
    assert_eq!(html2sl("<div></div>"), "    div()");
}

#[test]
fn deep_nesting_indents_four_spaces_per_level() {
    let out = html2sl("<a><b><c>t</c></b></a>");
    let expected = [
        "    a()",
        "        .child(",
        "        b()",
        "            .child(",
        "            c()",
        "                .child(\"t\")",
        "            )",
        "        )",
    ]
    .join("\n");
    assert_eq!(out, expected);
}

#[test]
fn end_to_end_lines_trimmed() {
    let out = html2sl("<div id=\"a\"><p>hi</p></div>");
    let t: Vec<&str> = out.lines().map(str::trim).collect();
    assert_eq!(t[..6], ["div()", ".id(\"a\")", ".child(", "p()", ".child(\"hi\")", ")"]);
    assert_eq!(t.iter().filter(|l| **l == "div()").count(), 1);
    assert_eq!(t.iter().filter(|l| **l == ".id(\"a\")").count(), 1);
    assert!(t.iter().all(|l| !l.is_empty()));
    assert_ne!(t[0], ".child(");
}

#[test]
fn single_top_level_element_starts_with_its_tag_call() {
    for (html, first) in [
        ("<div id=\"a\"><p>hi</p></div>", "    div()"),
        ("<ul><li>a</li><li><b>c</b></li></ul>", "    ul()"),
        ("<section class=\"x\"><!-- c --></section>", "    section()"),
    ] {
        let out = html2sl(html);
        assert_eq!(out.lines().next(), Some(first));
        assert!(out.lines().all(|l| l != "    .child(" && l != "    )"));
        let opens = out.lines().filter(|l| l.trim() == ".child(").count();
        let closes = out.lines().filter(|l| l.trim() == ")").count();
        assert_eq!(opens, closes);
    }
}

#[test]
fn parsed_tables_hold_parents_first() {
    for html in [
        "",
        "<div id=\"a\"><p>hi</p></div>",
        "<a><b><c>t</c></b></a><!-- x --><d></d> tail",
        "<ul><li>one<li>two</ul><br><p>x</p>",
    ] {
        let dom = tl::parse(html, tl::ParserOptions::default()).unwrap();
        assert!(holds_parents_first(&document_of(&dom)));
    }
}

#[test]
fn table_with_a_child_before_its_parent_is_told_apart() {
    let ordered = Document {
        nodes: vec![Node::Element(element("a", vec![1, 9])), Node::Comment],
        roots: vec![0],
    };
    assert!(holds_parents_first(&ordered));
    let looped = Document { nodes: vec![Node::Element(element("a", vec![0]))], roots: vec![0] };
    assert!(!holds_parents_first(&looped));
    let backwards = Document {
        nodes: vec![Node::Comment, Node::Element(element("a", vec![0]))],
        roots: vec![1],
    };
    assert!(!holds_parents_first(&backwards));
    assert_eq!(emit_lines(&backwards), "    .child(\n    a()\n    )\n");
}
