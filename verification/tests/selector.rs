use wraith_dom::{parse, select, Selector};

#[test]
fn select_by_tag() {
    let doc = parse("<div><p>one</p><p>two</p><span>three</span></div>");
    let sel = Selector::parse("p").unwrap();
    assert_eq!(select(&doc, &sel).len(), 2);
}

#[test]
fn select_by_id() {
    let doc = parse(r#"<div id="main"><p id="first">hello</p></div>"#);
    let sel = Selector::parse("#first").unwrap();
    let ids = select(&doc, &sel);
    assert_eq!(ids.len(), 1);
    assert_eq!(doc.tag_name(ids[0]), "p");
}

#[test]
fn select_by_class() {
    let doc = parse(r#"<div class="a b"><span class="b c">x</span></div>"#);
    let sel = Selector::parse(".b").unwrap();
    assert_eq!(select(&doc, &sel).len(), 2);
}

#[test]
fn select_by_attribute_presence() {
    let doc = parse(r#"<input type="text"><input><select name="x"></select>"#);
    let sel = Selector::parse("[type]").unwrap();
    assert_eq!(select(&doc, &sel).len(), 1);
}

#[test]
fn select_by_attribute_value() {
    let doc = parse(r#"<input type="email"><input type="password"><input type="text">"#);
    let sel = Selector::parse(r#"[type="password"]"#).unwrap();
    assert_eq!(select(&doc, &sel).len(), 1);
}

#[test]
fn select_descendant() {
    let doc = parse(
        r#"<form><input type="email"><div><input type="password"></div></form><input type="text">"#,
    );
    let sel = Selector::parse("form input").unwrap();
    assert_eq!(select(&doc, &sel).len(), 2);
}

#[test]
fn select_comma_separated() {
    let doc = parse("<div><input><select></select><textarea></textarea><p>hi</p></div>");
    let sel = Selector::parse("input, select, textarea").unwrap();
    assert_eq!(select(&doc, &sel).len(), 3);
}

#[test]
fn combined_tag_and_attr() {
    let doc = parse(r#"<input type="email"><div type="email"></div>"#);
    let sel = Selector::parse(r#"input[type="email"]"#).unwrap();
    let ids = select(&doc, &sel);
    assert_eq!(ids.len(), 1);
    assert_eq!(doc.tag_name(ids[0]), "input");
}

#[test]
fn tag_class_combined() {
    let doc = parse(r#"<button class="submit">Go</button><div class="submit">x</div>"#);
    let sel = Selector::parse("button.submit").unwrap();
    assert_eq!(select(&doc, &sel).len(), 1);
}
