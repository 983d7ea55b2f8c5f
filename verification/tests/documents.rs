use wraith_dom::{
    extract_links, extract_text, extract_title, find_forms, find_login_form, parse, select,
    NodeData, Selector,
};

#[test]
fn readme_parse_and_query() {
    let doc = parse("<html><body><p class=\"intro\">Hello</p><p>World</p></body></html>");
    let sel = Selector::parse("p").unwrap();
    let matches = select(&doc, &sel);
    assert_eq!(matches.len(), 2);
    let sel = Selector::parse(".intro").unwrap();
    let matches = select(&doc, &sel);
    assert_eq!(matches.len(), 1);
    assert_eq!(doc.inner_text(matches[0]), "Hello");
}

#[test]
fn readme_forms() {
    let doc = parse(
        r#"
    <form action="/login" method="post">
        <input type="email" name="user">
        <input type="password" name="pass">
        <button type="submit">Sign In</button>
    </form>
"#,
    );
    let forms = find_forms(&doc);
    assert_eq!(forms.len(), 1);
    assert_eq!(forms[0].action, "/login");
    assert_eq!(forms[0].method, "POST");
    let login = find_login_form(&doc).unwrap();
    assert!(login.inputs.iter().any(|i| i.input_type == "password"));
}

#[test]
fn readme_text_and_links() {
    let doc = parse(
        r#"
    <html>
    <head><title>My Page</title></head>
    <body>
        <h1>Welcome</h1>
        <p>Visit <a href="https://example.com">Example</a></p>
        <script>var x = 1;</script>
    </body>
    </html>
"#,
    );
    assert_eq!(extract_title(&doc), Some("My Page".into()));
    let text = extract_text(&doc);
    assert!(text.contains("Welcome"));
    assert!(!text.contains("var x"));
    let links = extract_links(&doc);
    assert_eq!(links[0].0, "https://example.com");
    assert_eq!(links[0].1, "Example");
}

#[test]
fn text_is_well_spaced() {
    let doc = parse("<div>  a \t b <p> c </p>\n\n<span>d</span>   </div>");
    let text = extract_text(&doc);
    assert_eq!(text, "a b \nc \nd");
    assert!(!text.contains("  "));
    assert!(!text.contains("\n\n"));
    assert!(!text.contains("\n "));
}

#[test]
fn exact_text_of_blocks() {
    let doc = parse("<div><h1>Title</h1><p>Para one</p><p>Para two</p></div>");
    assert_eq!(extract_text(&doc), "Title\nPara one\nPara two");
}

#[test]
fn blank_title_is_skipped() {
    let doc = parse("<title>   </title><title> Second </title>");
    assert_eq!(extract_title(&doc), Some(String::from("Second")));
}

#[test]
fn links_need_href_and_are_trimmed() {
    let doc = parse(r#"<a href="">empty</a><a href="/a">  spaced  </a>"#);
    let links = extract_links(&doc);
    assert_eq!(links, vec![(String::from("/a"), String::from("spaced"))]);
}

#[test]
fn comma_selector_is_union() {
    let doc = parse(r#"<p>a</p><div class="x">b</div><span class="x">c</span><p class="x">d</p>"#);
    let p = select(&doc, &Selector::parse("p").unwrap());
    let x = select(&doc, &Selector::parse(".x").unwrap());
    let both = select(&doc, &Selector::parse("p,.x").unwrap());
    let mut union: Vec<usize> = p.iter().chain(x.iter()).cloned().collect();
    union.sort();
    union.dedup();
    assert_eq!(both, union);
}

#[test]
fn descendant_needs_ancestor_in_order() {
    let doc = parse("<div><form><p><input></p></form></div><form><input></form><input>");
    assert_eq!(select(&doc, &Selector::parse("div form input").unwrap()).len(), 1);
    assert_eq!(select(&doc, &Selector::parse("form input").unwrap()).len(), 2);
    assert_eq!(select(&doc, &Selector::parse("form div input").unwrap()).len(), 0);
    assert_eq!(select(&doc, &Selector::parse("div input").unwrap()).len(), 1);
}

#[test]
fn selector_edge_cases() {
    assert!(Selector::parse("").is_none());
    assert!(Selector::parse("   ").is_none());
    assert!(Selector::parse(" , , ").is_none());
    assert!(Selector::parse("*").is_none());
    assert!(Selector::parse("p").is_some());
    let doc = parse(r#"<input type='email'><INPUT TYPE="text" Name=q>"#);
    assert_eq!(select(&doc, &Selector::parse("[type='email']").unwrap()).len(), 1);
    assert_eq!(select(&doc, &Selector::parse("INPUT[NAME=q]").unwrap()).len(), 1);
    assert_eq!(select(&doc, &Selector::parse("input[name]").unwrap()).len(), 1);
    assert_eq!(select(&doc, &Selector::parse("input#nope").unwrap()).len(), 0);
}

#[test]
fn select_results_in_document_order() {
    let doc = parse("<b></b><i></i><b></b><i></i>");
    let ids = select(&doc, &Selector::parse("i, b").unwrap());
    assert_eq!(ids.len(), 4);
    assert!(ids.windows(2).all(|w| w[0] < w[1]));
}

#[test]
fn login_form_by_class_and_fallbacks() {
    let doc = parse(
        r#"<form action="/a"><input name="x"></form><form class="SignIn-Box" action="/b"><input name="y"></form>"#,
    );
    let login = find_login_form(&doc).unwrap();
    assert_eq!(login.action, "/b");
    let two = parse(r#"<form action="/a"></form><form action="/b"></form>"#);
    assert!(find_login_form(&two).is_none());
    let none = parse("<p>no forms</p>");
    assert!(find_login_form(&none).is_none());
}

#[test]
fn form_controls_defaults() {
    let doc = parse(
        r#"<form method="PoSt"><input name="a"><button name="b">Go</button>
        <select name="c"><option value="1">one</option><option value="2">two</option></select>
        <select name="d"></select><textarea name="e">x &amp; y</textarea></form>"#,
    );
    let forms = find_forms(&doc);
    assert_eq!(forms[0].method, "POST");
    assert_eq!(forms[0].action, "");
    let inputs = &forms[0].inputs;
    assert_eq!(inputs.len(), 5);
    assert_eq!((inputs[0].name.as_str(), inputs[0].input_type.as_str(), inputs[0].value.as_str()), ("a", "text", ""));
    assert_eq!((inputs[1].name.as_str(), inputs[1].input_type.as_str(), inputs[1].value.as_str()), ("b", "submit", "Go"));
    assert_eq!((inputs[2].input_type.as_str(), inputs[2].value.as_str()), ("select", "1"));
    assert_eq!((inputs[3].input_type.as_str(), inputs[3].value.as_str()), ("select", ""));
    assert_eq!((inputs[4].input_type.as_str(), inputs[4].value.as_str()), ("textarea", "x & y"));
}

#[test]
fn method_defaults_to_get() {
    let doc = parse(r#"<form method="put"></form><form></form>"#);
    let forms = find_forms(&doc);
    assert_eq!(forms.len(), 2);
    assert_eq!(forms[0].method, "GET");
    assert_eq!(forms[1].method, "GET");
}

#[test]
fn parser_builds_a_tree() {
    let doc = parse("<!DOCTYPE html><div id=a>x<!-- note --><br><p>&lt;&#65;&#x42;&gt;</p></div>");
    assert_eq!(doc.tag_name(0), "#document");
    for (i, node) in doc.nodes.iter().enumerate() {
        assert_eq!(node.id, i);
        if let Some(p) = node.parent {
            assert!(p < i);
            assert!(doc.nodes[p].children.contains(&i));
        }
    }
    let p = select(&doc, &Selector::parse("div p").unwrap());
    assert_eq!(p.len(), 1);
    assert_eq!(doc.inner_text(p[0]), "<AB>");
    assert!(doc.nodes.iter().any(|n| matches!(&n.data, NodeData::Comment(c) if c == " note ")));
    assert_eq!(doc.inner_text(0), "x<AB>");
}

#[test]
fn parser_text_elements_and_end_tags() {
    let doc = parse("<script>a &amp; <b></SCRIPT><title>x &amp; y</title><textarea>&lt;i&gt;</textarea>");
    assert_eq!(doc.nodes.len(), 7);
    assert_eq!(doc.tag_name(1), "script");
    assert_eq!(doc.inner_text(1), "a &amp; <b>");
    assert_eq!(doc.tag_name(3), "title");
    assert_eq!(doc.inner_text(3), "x & y");
    assert_eq!(doc.inner_text(5), "<i>");
    assert_eq!(doc.nodes[0].children, vec![1, 3, 5]);

    let doc = parse("<div><span>a</div>b</span><p/>c&bogus;&#xZZ;");
    assert_eq!(doc.tag_name(1), "div");
    assert_eq!(doc.tag_name(2), "span");
    assert_eq!(doc.nodes[2].parent, Some(1));
    assert_eq!(doc.nodes[4].parent, Some(0));
    assert_eq!(doc.inner_text(4), "b");
    assert_eq!(doc.tag_name(5), "p");
    assert!(doc.nodes[5].children.is_empty());
    assert_eq!(doc.inner_text(6), "c&bogus;&#xZZ;");
    assert_eq!(doc.nodes[6].parent, Some(0));
}

#[test]
fn parser_attributes() {
    let doc = parse(r#"<A HREF=/x?a=1&amp;b=2 data-x = 'q "w"' checked/>"#);
    match &doc.nodes[1].data {
        NodeData::Element { tag, attributes } => {
            assert_eq!(tag, "a");
            assert_eq!(
                attributes,
                &vec![
                    (String::from("href"), String::from("/x?a=1&b=2")),
                    (String::from("data-x"), String::from("q \"w\"")),
                    (String::from("checked"), String::new()),
                ]
            );
        }
        _ => panic!("expected an element"),
    }
    assert!(doc.nodes[1].children.is_empty());
}

#[test]
fn empty_document_has_nothing() {
    let doc = wraith_dom::Document { nodes: Vec::new() };
    assert!(find_forms(&doc).is_empty());
    assert!(find_login_form(&doc).is_none());
    assert!(select(&doc, &Selector::parse("p").unwrap()).is_empty());
    assert!(extract_title(&doc).is_none());
    assert!(extract_links(&doc).is_empty());
}

#[test]
fn text_keeps_every_visible_character_in_order() {
    let doc = parse("<div> a\t\tb <p>c\n\n d</p>  e </div>");
    let text = extract_text(&doc);
    let kept: String = text.chars().filter(|c| !c.is_whitespace()).collect();
    assert_eq!(kept, "abcde");
    let again = parse(&text);
    assert_eq!(extract_text(&again), text);
}

#[test]
fn spaced_comma_selector_is_union() {
    let doc = parse(r#"<p>a</p><div class="x">b</div><span class="x">c</span>"#);
    let p = select(&doc, &Selector::parse(" p ").unwrap());
    let x = select(&doc, &Selector::parse(".x").unwrap());
    let both = select(&doc, &Selector::parse(" p ,  .x ").unwrap());
    let mut union: Vec<usize> = p.iter().chain(x.iter()).cloned().collect();
    union.sort();
    assert_eq!(both, union);
}
