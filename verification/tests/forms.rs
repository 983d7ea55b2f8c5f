use wraith_dom::{find_forms, find_login_form, parse};

#[test]
fn find_simple_form() {
    let doc = parse(
        r#"
        <html><body>
        <form action="/login" method="post">
            <input type="email" name="user">
            <input type="password" name="pass">
            <input type="hidden" name="csrf" value="abc123">
            <button type="submit">Sign In</button>
        </form>
        </body></html>
    "#,
    );
    let forms = find_forms(&doc);
    assert_eq!(forms.len(), 1);
    let f = &forms[0];
    assert_eq!(f.action, "/login");
    assert_eq!(f.method, "POST");
    assert_eq!(f.inputs.len(), 4);
    let email = f.inputs.iter().find(|i| i.input_type == "email").unwrap();
    assert_eq!(email.name, "user");
    let hidden = f.inputs.iter().find(|i| i.input_type == "hidden").unwrap();
    assert_eq!(hidden.value, "abc123");
}

#[test]
fn detect_login_form_by_password() {
    let doc = parse(
        r#"
        <form action="/search" method="get">
            <input type="text" name="q">
        </form>
        <form action="/auth" method="post">
            <input type="email" name="email">
            <input type="password" name="password">
        </form>
    "#,
    );
    let login = find_login_form(&doc).unwrap();
    assert_eq!(login.method, "POST");
    assert!(login.inputs.iter().any(|i| i.input_type == "password"));
}

#[test]
fn detect_login_form_by_action_url() {
    let doc = parse(
        r#"
        <form action="https://accounts.google.com/signin/v2" method="post">
            <input type="email" name="identifier">
            <button type="submit">Next</button>
        </form>
    "#,
    );
    let login = find_login_form(&doc).unwrap();
    assert!(login.action.contains("signin"));
}

#[test]
fn detect_login_form_by_id() {
    let doc = parse(
        r#"
        <form id="login-form" action="/api/v1/session" method="post">
            <input type="text" name="username">
            <button type="submit">Log In</button>
        </form>
    "#,
    );
    let login = find_login_form(&doc).unwrap();
    assert_eq!(login.inputs.len(), 2);
}

#[test]
fn form_with_select_and_textarea() {
    let doc = parse(
        r#"
        <form action="/profile" method="post">
            <select name="role">
                <option value="user">User</option>
                <option value="admin" selected>Admin</option>
            </select>
            <textarea name="bio">Hello world</textarea>
        </form>
    "#,
    );
    let forms = find_forms(&doc);
    let f = &forms[0];
    let sel = f.inputs.iter().find(|i| i.input_type == "select").unwrap();
    assert_eq!(sel.name, "role");
    assert_eq!(sel.value, "admin");
    let ta = f
        .inputs
        .iter()
        .find(|i| i.input_type == "textarea")
        .unwrap();
    assert_eq!(ta.name, "bio");
    assert!(ta.value.contains("Hello world"));
}

#[test]
fn nested_inputs_in_divs() {
    let doc = parse(
        r#"
        <form action="/login" method="post">
            <div class="field">
                <input type="email" name="email">
            </div>
            <div class="field">
                <input type="password" name="password">
            </div>
        </form>
    "#,
    );
    let forms = find_forms(&doc);
    assert_eq!(forms[0].inputs.len(), 2);
}

#[test]
fn single_form_fallback() {
    let doc = parse(
        r#"
        <form action="/do-something" method="post">
            <input type="text" name="data">
        </form>
    "#,
    );
    assert!(find_login_form(&doc).is_some());
}
