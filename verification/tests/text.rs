use wraith_dom::{extract_links, extract_text, extract_title, parse};

#[test]
fn extract_simple_text() {
    let doc = parse("<html><body><p>Hello</p><p>World</p></body></html>");
    let text = extract_text(&doc);
    assert!(text.contains("Hello"));
    assert!(text.contains("World"));
}

#[test]
fn scripts_excluded() {
    let doc = parse("<body><p>Visible</p><script>var x = 1;</script><p>Also visible</p></body>");
    let text = extract_text(&doc);
    assert!(text.contains("Visible"));
    assert!(text.contains("Also visible"));
    assert!(!text.contains("var x"));
}

#[test]
fn extract_title_tag() {
    let doc = parse("<html><head><title>My Page Title</title></head><body></body></html>");
    assert_eq!(extract_title(&doc), Some(String::from("My Page Title")));
}

#[test]
fn extract_title_missing() {
    let doc = parse("<html><head></head><body><p>no title</p></body></html>");
    assert!(extract_title(&doc).is_none());
}

#[test]
fn extract_links_basic() {
    let doc = parse(
        r#"
        <body>
            <a href="https://example.com">Example</a>
            <a href="/about">About Us</a>
            <a>No href</a>
        </body>
    "#,
    );
    let links = extract_links(&doc);
    assert_eq!(links.len(), 2);
    assert_eq!(links[0].0, "https://example.com");
    assert_eq!(links[0].1, "Example");
    assert_eq!(links[1].0, "/about");
    assert_eq!(links[1].1, "About Us");
}

#[test]
fn block_elements_produce_newlines() {
    let doc = parse("<div><h1>Title</h1><p>Para one</p><p>Para two</p></div>");
    let text = extract_text(&doc);
    let lines: Vec<&str> = text.lines().filter(|l| !l.trim().is_empty()).collect();
    assert!(lines.len() >= 3, "Expected >= 3 lines, got: {:?}", lines);
}

#[test]
fn style_excluded() {
    let doc = parse("<head><style>body { color: red; }</style></head><body><p>Hello</p></body>");
    let text = extract_text(&doc);
    assert!(!text.contains("color"));
    assert!(text.contains("Hello"));
}

#[test]
fn nested_link_text() {
    let doc = parse(r#"<a href="/x"><span>Click</span> <em>here</em></a>"#);
    let links = extract_links(&doc);
    assert_eq!(links.len(), 1);
    assert!(links[0].1.contains("Click"));
    assert!(links[0].1.contains("here"));
}
