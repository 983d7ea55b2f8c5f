//! Form detection and extraction.
//!
//! Finds `<form>` elements in a parsed document, extracts their inputs,
//! and provides heuristics to locate login/OAuth forms.

use vstd::prelude::*;
use crate::chars::{chars_eq, contains, contains_seq, from_chars, lower, push_all, to_chars, to_lower, vv};
use crate::parser::{attr_lookup, attr_or_empty, attr_val, has_attr, Document, NodeData};

verus! {

// --- Types ---------------------------------------------------------------

/// A parsed HTML form.
pub struct Form {
    /// The `action` attribute (URL the form submits to).
    pub action: String,
    /// The HTTP method: `"GET"` or `"POST"`.
    pub method: String,
    /// All input fields within the form.
    pub inputs: Vec<FormInput>,
}

/// A single form input field.
pub struct FormInput {
    /// The `name` attribute.
    pub name: String,
    /// The `type` attribute (e.g., `"text"`, `"email"`, `"password"`, `"hidden"`, `"submit"`).
    pub input_type: String,
    /// Pre-filled value, if any.
    pub value: String,
}

/// A form field, as sequences of characters.
pub struct InputSpec {
    pub name: Seq<char>,
    pub input_type: Seq<char>,
    pub value: Seq<char>,
}

/// A form, as sequences of characters.
pub struct FormSpec {
    pub action: Seq<char>,
    pub method: Seq<char>,
    pub inputs: Seq<InputSpec>,
}

impl View for FormInput {
    type V = InputSpec;

    open spec fn view(&self) -> InputSpec {
        InputSpec { name: self.name@, input_type: self.input_type@, value: self.value@ }
    }
}

impl View for Form {
    type V = FormSpec;

    open spec fn view(&self) -> FormSpec {
        FormSpec {
            action: self.action@,
            method: self.method@,
            inputs: self.inputs@.map_values(|i: FormInput| i@),
        }
    }
}

// --- Specification -------------------------------------------------------

/// Equal up to ASCII case (`str::eq_ignore_ascii_case`).
pub open spec fn eq_ignore_case(a: Seq<char>, b: Seq<char>) -> bool {
    lower(a) == lower(b)
}

/// `"POST"` for a `method` attribute that reads `post` in any case, else `"GET"`.
pub open spec fn method_of(raw: Seq<char>) -> Seq<char> {
    if eq_ignore_case(raw, "post"@) {
        "POST"@
    } else {
        "GET"@
    }
}

/// An attribute value, lowercased, or `default` when it is empty or missing.
pub open spec fn type_or(attrs: Seq<(String, String)>, default: Seq<char>) -> Seq<char> {
    let t = attr_or_empty(attrs, "type"@);
    if t.len() == 0 {
        default
    } else {
        lower(t)
    }
}

/// Scanning the children of a `<select>` from position `k` on: the value of the
/// first `<option>` marked `selected`, else that of the first option, else empty.
pub open spec fn selected_from(doc: &Document, id: int, k: int, first: Option<Seq<char>>) -> Seq<
    char,
>
    decreases doc.node(id).children@.len() - k,
{
    if k < 0 || k >= doc.node(id).children@.len() {
        match first {
            Some(v) => v,
            None => Seq::empty(),
        }
    } else {
        let c = doc.node(id).children@[k] as int;
        if doc.is_tag(c, "option"@) {
            let val = attr_or_empty(doc.attrs_of(c), "value"@);
            let first2 = if first is None {
                Some(val)
            } else {
                first
            };
            if attr_lookup(doc.attrs_of(c), "selected"@) is Some {
                val
            } else {
                selected_from(doc, id, k + 1, first2)
            }
        } else {
            selected_from(doc, id, k + 1, first)
        }
    }
}

/// The value a `<select>` submits.
pub open spec fn selected_value(doc: &Document, id: int) -> Seq<char> {
    selected_from(doc, id, 0, None)
}

/// The fields that child `c` contributes: one for a control, those of its
/// descendants for any other element, none for text and comments.
pub open spec fn inputs_of_child(doc: &Document, c: int) -> Seq<InputSpec>
    decreases doc.len() - c, 2int, 0int,
{
    if 0 <= c < doc.len() {
        match doc.node(c).data {
            NodeData::Element { tag, attributes } => {
                let attrs = attributes@;
                let name = attr_or_empty(attrs, "name"@);
                if tag@ == "input"@ {
                    seq![
                        InputSpec {
                            name,
                            input_type: type_or(attrs, "text"@),
                            value: attr_or_empty(attrs, "value"@),
                        },
                    ]
                } else if tag@ == "select"@ {
                    seq![
                        InputSpec { name, input_type: "select"@, value: selected_value(doc, c) },
                    ]
                } else if tag@ == "textarea"@ {
                    seq![InputSpec { name, input_type: "textarea"@, value: doc.text_of(c) }]
                } else if tag@ == "button"@ {
                    let v = attr_or_empty(attrs, "value"@);
                    seq![
                        InputSpec {
                            name,
                            input_type: type_or(attrs, "submit"@),
                            value: if v.len() == 0 {
                                doc.text_of(c)
                            } else {
                                v
                            },
                        },
                    ]
                } else {
                    inputs_of(doc, c)
                }
            },
            _ => Seq::empty(),
        }
    } else {
        Seq::empty()
    }
}

/// The fields inside node `id`, in document order.
pub open spec fn inputs_of(doc: &Document, id: int) -> Seq<InputSpec>
    decreases doc.len() - id, 1int, 0int,
{
    if 0 <= id < doc.len() {
        inputs_children(doc, id, doc.node(id).children@.len() as int)
    } else {
        Seq::empty()
    }
}

/// The fields inside the first `k` children of node `id`.
pub open spec fn inputs_children(doc: &Document, id: int, k: int) -> Seq<InputSpec>
    decreases doc.len() - id, 0int, k,
{
    if 0 <= id < doc.len() && 0 < k <= doc.node(id).children@.len() {
        let c = doc.node(id).children@[k - 1] as int;
        inputs_children(doc, id, k - 1) + if id < c < doc.len() {
            inputs_of_child(doc, c)
        } else {
            Seq::empty()
        }
    } else {
        Seq::empty()
    }
}

/// The form that the `<form>` element at node `i` describes.
pub open spec fn form_of(doc: &Document, i: int) -> FormSpec {
    FormSpec {
        action: attr_or_empty(doc.attrs_of(i), "action"@),
        method: method_of(attr_or_empty(doc.attrs_of(i), "method"@)),
        inputs: inputs_of(doc, i),
    }
}

/// The forms of the first `n` nodes, in document order.
pub open spec fn forms_upto(doc: &Document, n: int) -> Seq<FormSpec>
    decreases n,
{
    if n <= 0 {
        Seq::empty()
    } else {
        forms_upto(doc, n - 1) + if doc.is_tag(n - 1, "form"@) {
            seq![form_of(doc, n - 1)]
        } else {
            Seq::empty()
        }
    }
}

/// All forms of the document, in document order.
pub open spec fn forms_spec(doc: &Document) -> Seq<FormSpec> {
    forms_upto(doc, doc.len())
}

/// The words that mark a login form.
pub open spec fn login_keywords() -> Seq<Seq<char>> {
    seq!["login"@, "auth"@, "signin"@, "sign-in"@, "sign_in"@, "oauth"@, "session"@]
}

/// `s` contains one of the login keywords.
pub open spec fn has_keyword(s: Seq<char>) -> bool {
    exists|k: int| 0 <= k < login_keywords().len() && contains(s, #[trigger] login_keywords()[k])
}

/// The form has a field of type `password`.
pub open spec fn has_password(f: FormSpec) -> bool {
    exists|k: int| 0 <= k < f.inputs.len() && (#[trigger] f.inputs[k]).input_type == "password"@
}

/// The first form from position `k` on with a password field.
pub open spec fn first_with_password(forms: Seq<FormSpec>, k: int) -> Option<FormSpec>
    decreases forms.len() - k,
{
    if k < 0 || k >= forms.len() {
        None
    } else if has_password(forms[k]) {
        Some(forms[k])
    } else {
        first_with_password(forms, k + 1)
    }
}

/// The first form from position `k` on whose action mentions a login keyword.
pub open spec fn first_with_login_action(forms: Seq<FormSpec>, k: int) -> Option<FormSpec>
    decreases forms.len() - k,
{
    if k < 0 || k >= forms.len() {
        None
    } else if has_keyword(lower(forms[k].action)) {
        Some(forms[k])
    } else {
        first_with_login_action(forms, k + 1)
    }
}

/// The id and class of a form element, lowercased, joined by a space.
pub open spec fn id_and_class(doc: &Document, i: int) -> Seq<char> {
    lower(attr_or_empty(doc.attrs_of(i), "id"@)) + " "@ + lower(
        attr_or_empty(doc.attrs_of(i), "class"@),
    )
}

/// The first `<form>` element from node `i` on whose id or class mentions a login keyword.
pub open spec fn first_with_login_name(doc: &Document, i: int) -> Option<FormSpec>
    decreases doc.len() - i,
{
    if i < 0 || i >= doc.len() {
        None
    } else if doc.is_tag(i, "form"@) && has_keyword(id_and_class(doc, i)) {
        Some(form_of(doc, i))
    } else {
        first_with_login_name(doc, i + 1)
    }
}

/// The login form that the heuristics pick: a form with a password field, else
/// one whose action mentions a login keyword, else one whose id or class does,
/// else the only form of the page.
pub open spec fn login_form_spec(doc: &Document) -> Option<FormSpec> {
    let forms = forms_spec(doc);
    match first_with_password(forms, 0) {
        Some(f) => Some(f),
        None => match first_with_login_action(forms, 0) {
            Some(f) => Some(f),
            None => match first_with_login_name(doc, 0) {
                Some(f) => Some(f),
                None => if forms.len() == 1 {
                    Some(forms[0])
                } else {
                    None
                },
            },
        },
    }
}

// --- Laws ----------------------------------------------------------------

proof fn lemma_forms_upto_methods(doc: &Document, n: int)
    ensures
        forall|k: int|
            0 <= k < forms_upto(doc, n).len() ==> (#[trigger] forms_upto(doc, n)[k]).method == "GET"@
                || forms_upto(doc, n)[k].method == "POST"@,
    decreases n,
{
    if n > 0 {
        lemma_forms_upto_methods(doc, n - 1);
        let prev = forms_upto(doc, n - 1);
        let cur = forms_upto(doc, n);
        assert forall|k: int| 0 <= k < cur.len() implies (#[trigger] cur[k]).method == "GET"@
            || cur[k].method == "POST"@ by {
            if k < prev.len() {
                assert(cur[k] == prev[k]);
            }
        }
    }
}

/// Every form that `find_forms` extracts submits with `"GET"` or `"POST"`.
pub proof fn lemma_form_methods(doc: &Document)
    ensures
        forall|k: int|
            0 <= k < forms_spec(doc).len() ==> (#[trigger] forms_spec(doc)[k]).method == "GET"@
                || forms_spec(doc)[k].method == "POST"@,
{
    lemma_forms_upto_methods(doc, doc.len());
}

proof fn lemma_form_of_in_forms(doc: &Document, n: int, i: int)
    requires
        0 <= i < n,
        doc.is_tag(i, "form"@),
    ensures
        forms_upto(doc, n).contains(form_of(doc, i)),
    decreases n,
{
    let cur = forms_upto(doc, n);
    if i == n - 1 {
        assert(cur[cur.len() - 1] == form_of(doc, i));
    } else {
        lemma_form_of_in_forms(doc, n - 1, i);
        let prev = forms_upto(doc, n - 1);
        let k = choose|k: int| 0 <= k < prev.len() && prev[k] == form_of(doc, i);
        assert(cur[k] == prev[k]);
    }
}

proof fn lemma_first_with_password_in(forms: Seq<FormSpec>, k: int)
    ensures
        first_with_password(forms, k) matches Some(f) ==> forms.contains(f) && has_password(f),
    decreases forms.len() - k,
{
    if 0 <= k < forms.len() && !has_password(forms[k]) {
        lemma_first_with_password_in(forms, k + 1);
    }
}

proof fn lemma_first_with_login_action_in(forms: Seq<FormSpec>, k: int)
    ensures
        first_with_login_action(forms, k) matches Some(f) ==> forms.contains(f),
    decreases forms.len() - k,
{
    if 0 <= k < forms.len() && !has_keyword(lower(forms[k].action)) {
        lemma_first_with_login_action_in(forms, k + 1);
    }
}

proof fn lemma_first_with_login_name_in(doc: &Document, i: int)
    requires
        0 <= i,
    ensures
        first_with_login_name(doc, i) matches Some(f) ==> forms_spec(doc).contains(f),
    decreases doc.len() - i,
{
    if i < doc.len() {
        if doc.is_tag(i, "form"@) && has_keyword(id_and_class(doc, i)) {
            lemma_form_of_in_forms(doc, doc.len(), i);
        } else {
            lemma_first_with_login_name_in(doc, i + 1);
        }
    }
}

/// The login form, when the heuristics find one, is one of the forms that
/// `find_forms` extracts.
pub proof fn lemma_login_form_is_a_form(doc: &Document)
    ensures
        login_form_spec(doc) matches Some(f) ==> forms_spec(doc).contains(f),
{
    lemma_first_with_password_in(forms_spec(doc), 0);
    lemma_first_with_login_action_in(forms_spec(doc), 0);
    lemma_first_with_login_name_in(doc, 0);
}

/// A page with exactly one form always has a login form.
pub proof fn lemma_single_form_is_login_form(doc: &Document)
    ensures
        forms_spec(doc).len() == 1 ==> login_form_spec(doc) is Some,
{
}

proof fn lemma_first_with_password_first(forms: Seq<FormSpec>, k: int, j: int)
    requires
        0 <= k <= j < forms.len(),
        has_password(forms[j]),
        forall|m: int| k <= m < j ==> !has_password(#[trigger] forms[m]),
    ensures
        first_with_password(forms, k) == Some(forms[j]),
    decreases j - k,
{
    if k < j {
        lemma_first_with_password_first(forms, k + 1, j);
    }
}

/// When some form of the page has a password field, the login form is the
/// first such form.
pub proof fn lemma_password_form_wins(doc: &Document, j: int)
    requires
        0 <= j < forms_spec(doc).len(),
        has_password(forms_spec(doc)[j]),
        forall|m: int| 0 <= m < j ==> !has_password(#[trigger] forms_spec(doc)[m]),
    ensures
        login_form_spec(doc) == Some(forms_spec(doc)[j]),
{
    lemma_first_with_password_first(forms_spec(doc), 0, j);
}

/// An `<input>` or `<button>` with a non-empty `value` attribute gives one
/// field, named by its `name` attribute, whose value is that attribute.
pub proof fn lemma_control_value_attribute(doc: &Document, c: int)
    requires
        0 <= c < doc.len(),
        doc.is_tag(c, "input"@) || doc.is_tag(c, "button"@),
        attr_or_empty(doc.attrs_of(c), "value"@).len() > 0,
    ensures
        inputs_of_child(doc, c).len() == 1,
        inputs_of_child(doc, c)[0].name == attr_or_empty(doc.attrs_of(c), "name"@),
        inputs_of_child(doc, c)[0].value == attr_or_empty(doc.attrs_of(c), "value"@),
{
    reveal_strlit("input");
    reveal_strlit("button");
    reveal_strlit("select");
    reveal_strlit("textarea");
    if let NodeData::Element { tag, attributes } = doc.node(c).data {
        assert(doc.attrs_of(c) == attributes@);
        if tag@ == "input"@ {
            assert(inputs_of_child(doc, c)[0].value == attr_or_empty(attributes@, "value"@));
        } else {
            assert(tag@ == "button"@);
            assert("button"@.len() != "input"@.len() && "button"@[0] != "select"@[0]
                && "button"@.len() != "textarea"@.len());
        }
    }
}

/// The type of an `<input>` field is its `type` attribute in lowercase, or
/// `text` without one; that of a `<button>` field, or `submit` without one.
pub proof fn lemma_control_type(doc: &Document, c: int)
    requires
        0 <= c < doc.len(),
        doc.is_tag(c, "input"@) || doc.is_tag(c, "button"@),
    ensures
        inputs_of_child(doc, c).len() == 1,
        inputs_of_child(doc, c)[0].input_type == if attr_or_empty(doc.attrs_of(c), "type"@).len() > 0 {
            lower(attr_or_empty(doc.attrs_of(c), "type"@))
        } else if doc.is_tag(c, "input"@) {
            "text"@
        } else {
            "submit"@
        },
{
    reveal_strlit("input");
    reveal_strlit("button");
    reveal_strlit("select");
    reveal_strlit("textarea");
    if let NodeData::Element { tag, attributes } = doc.node(c).data {
        assert(doc.attrs_of(c) == attributes@);
        if tag@ != "input"@ {
            assert(tag@ == "button"@);
            assert("button"@.len() != "input"@.len() && "button"@[0] != "select"@[0]
                && "button"@.len() != "textarea"@.len());
        }
    }
}

proof fn lemma_match_found(h: Seq<char>, n: Seq<char>, i: int, q: int)
    requires
        0 <= i <= q,
        crate::chars::matches_at(h, n, q),
    ensures
        crate::chars::find_from(h, n, i) is Some,
    decreases q - i,
{
    if i < q && !crate::chars::matches_at(h, n, i) {
        lemma_match_found(h, n, i + 1, q);
    }
}

/// A login keyword in the lowercased id or class of a form element is one in
/// the text the heuristics look at.
proof fn lemma_keyword_in_id_or_class(doc: &Document, i: int)
    requires
        has_keyword(lower(attr_or_empty(doc.attrs_of(i), "id"@))) || has_keyword(
            lower(attr_or_empty(doc.attrs_of(i), "class"@)),
        ),
    ensures
        has_keyword(id_and_class(doc, i)),
{
    let x = lower(attr_or_empty(doc.attrs_of(i), "id"@));
    let y = lower(attr_or_empty(doc.attrs_of(i), "class"@));
    let t = id_and_class(doc, i);
    let sp = " "@;
    reveal_strlit(" ");
    assert(t == x + sp + y);
    if has_keyword(x) {
        let k = choose|k: int| 0 <= k < login_keywords().len() && contains(x, #[trigger] login_keywords()[k]);
        let n = login_keywords()[k];
        crate::chars::lemma_find_from_bounds(x, n, 0);
        let q = crate::chars::find_from(x, n, 0)->0;
        assert(t.subrange(q, q + n.len()) =~= x.subrange(q, q + n.len()));
        lemma_match_found(t, n, 0, q);
        assert(contains(t, login_keywords()[k]));
    } else {
        let k = choose|k: int| 0 <= k < login_keywords().len() && contains(y, #[trigger] login_keywords()[k]);
        let n = login_keywords()[k];
        crate::chars::lemma_find_from_bounds(y, n, 0);
        let q = crate::chars::find_from(y, n, 0)->0;
        let off = x.len() + 1;
        assert(t.subrange(off + q, off + q + n.len()) =~= y.subrange(q, q + n.len()));
        lemma_match_found(t, n, 0, off + q);
        assert(contains(t, login_keywords()[k]));
    }
}

proof fn lemma_no_password_form(forms: Seq<FormSpec>, k: int)
    requires
        forall|m: int| 0 <= m < forms.len() ==> !has_password(#[trigger] forms[m]),
    ensures
        first_with_password(forms, k) is None,
    decreases forms.len() - k,
{
    if 0 <= k < forms.len() {
        lemma_no_password_form(forms, k + 1);
    }
}

proof fn lemma_no_login_action(forms: Seq<FormSpec>, k: int)
    requires
        forall|m: int| 0 <= m < forms.len() ==> !has_keyword(lower(#[trigger] forms[m].action)),
    ensures
        first_with_login_action(forms, k) is None,
    decreases forms.len() - k,
{
    if 0 <= k < forms.len() {
        lemma_no_login_action(forms, k + 1);
    }
}

proof fn lemma_login_name_found(doc: &Document, s: int, i: int)
    requires
        0 <= s <= i < doc.len(),
        doc.is_tag(i, "form"@),
        has_keyword(id_and_class(doc, i)),
    ensures
        exists|j: int|
            s <= j <= i && doc.is_tag(j, "form"@) && first_with_login_name(doc, s) == Some(
                #[trigger] form_of(doc, j),
            ),
    decreases i - s,
{
    if doc.is_tag(s, "form"@) && has_keyword(id_and_class(doc, s)) {
        assert(first_with_login_name(doc, s) == Some(form_of(doc, s)));
    } else {
        lemma_login_name_found(doc, s + 1, i);
        let j = choose|j: int|
            s + 1 <= j <= i && doc.is_tag(j, "form"@) && first_with_login_name(doc, s + 1) == Some(
                #[trigger] form_of(doc, j),
            );
        assert(first_with_login_name(doc, s) == Some(form_of(doc, j)));
    }
}

/// When no form has a password field and no form's action mentions a login
/// keyword, a `<form>` whose id or class (lowercased) mentions one makes the
/// heuristics find a login form: that form, or an earlier form that also
/// qualifies by its id or class.
pub proof fn lemma_login_form_by_id_or_class(doc: &Document, i: int)
    requires
        0 <= i < doc.len(),
        doc.is_tag(i, "form"@),
        has_keyword(lower(attr_or_empty(doc.attrs_of(i), "id"@))) || has_keyword(
            lower(attr_or_empty(doc.attrs_of(i), "class"@)),
        ),
        forall|m: int| 0 <= m < forms_spec(doc).len() ==> !has_password(#[trigger] forms_spec(doc)[m]),
        forall|m: int|
            0 <= m < forms_spec(doc).len() ==> !has_keyword(lower(#[trigger] forms_spec(doc)[m].action)),
    ensures
        exists|j: int|
            0 <= j <= i && doc.is_tag(j, "form"@) && login_form_spec(doc) == Some(
                #[trigger] form_of(doc, j),
            ),
{
    lemma_keyword_in_id_or_class(doc, i);
    lemma_no_password_form(forms_spec(doc), 0);
    lemma_no_login_action(forms_spec(doc), 0);
    lemma_login_name_found(doc, 0, i);
}

// --- Implementation ------------------------------------------------------

/// The views of a sequence of fields.
pub open spec fn inputs_view(v: Seq<FormInput>) -> Seq<InputSpec> {
    v.map_values(|i: FormInput| i@)
}

/// The views of a sequence of forms.
pub open spec fn forms_view(v: Seq<Form>) -> Seq<FormSpec> {
    v.map_values(|f: Form| f@)
}

/// The `type` attribute lowercased, or `default` when it is empty or missing.
fn type_or_default(attrs: &Vec<(String, String)>, default: &str) -> (res: String)
    ensures
        res@ == type_or(attrs@, default@),
{
    let t = to_chars(attr_val(attrs, &to_chars("type")).as_str());
    if t.len() == 0 {
        default.to_owned()
    } else {
        from_chars(&to_lower(&t))
    }
}

/// The value a `<select>` submits.
fn find_selected_option(doc: &Document, select_id: usize) -> (res: String)
    requires
        doc.down_wf(),
        select_id < doc.len(),
    ensures
        res@ == selected_value(doc, select_id as int),
{
    let children = &doc.nodes[select_id].children;
    let option = to_chars("option");
    let mut first_value: Option<String> = None;
    let mut k: usize = 0;
    while k < children.len()
        invariant
            doc.down_wf(),
            select_id < doc.len(),
            children == doc.node(select_id as int).children,
            option@ == "option"@,
            k <= children@.len(),
            selected_from(doc, select_id as int, k as int, match first_value {
                Some(v) => Some(v@),
                None => None,
            }) == selected_value(doc, select_id as int),
        decreases children@.len() - k,
    {
        let child_id = children[k];
        assert(select_id < child_id < doc.len()) by {
            assert(doc.node(select_id as int).children@[k as int] == child_id);
        }
        if let NodeData::Element { tag, attributes } = &doc.nodes[child_id].data {
            let t = to_chars(tag.as_str());
            if chars_eq(&t, &option) {
                let val = attr_val(attributes, &to_chars("value"));
                if first_value.is_none() {
                    first_value = Some(val.clone());
                }
                if has_attr(attributes, &to_chars("selected")) {
                    return val;
                }
            }
        }
        k += 1;
    }
    match first_value {
        Some(v) => v,
        None => String::new(),
    }
}

/// Appends the fields inside node `node_id`, in document order.
fn collect_inputs(doc: &Document, node_id: usize, inputs: &mut Vec<FormInput>)
    requires
        doc.down_wf(),
        node_id < doc.len(),
    ensures
        inputs_view(final(inputs)@) == inputs_view(old(inputs)@) + inputs_of(doc, node_id as int),
    decreases doc.len() - node_id,
{
    let children = &doc.nodes[node_id].children;
    let mut k: usize = 0;
    assert(inputs_view(inputs@) + Seq::<InputSpec>::empty() =~= inputs_view(inputs@));
    while k < children.len()
        invariant
            doc.down_wf(),
            node_id < doc.len(),
            children == doc.node(node_id as int).children,
            k <= children@.len(),
            inputs_view(inputs@) == inputs_view(old(inputs)@) + inputs_children(
                doc,
                node_id as int,
                k as int,
            ),
        decreases children@.len() - k,
    {
        let child_id = children[k];
        assert(node_id < child_id < doc.len()) by {
            assert(doc.node(node_id as int).children@[k as int] == child_id);
        }
        let ghost before = inputs_view(inputs@);
        let ghost added = inputs_of_child(doc, child_id as int);
        if let NodeData::Element { tag, attributes } = &doc.nodes[child_id].data {
            let t = to_chars(tag.as_str());
            let name_key = to_chars("name");
            if chars_eq(&t, &to_chars("input")) {
                let name = attr_val(attributes, &name_key);
                let input_type = type_or_default(attributes, "text");
                let value = attr_val(attributes, &to_chars("value"));
                inputs.push(FormInput { name, input_type, value });
            } else if chars_eq(&t, &to_chars("select")) {
                let name = attr_val(attributes, &name_key);
                let value = find_selected_option(doc, child_id);
                inputs.push(FormInput { name, input_type: "select".to_owned(), value });
            } else if chars_eq(&t, &to_chars("textarea")) {
                let name = attr_val(attributes, &name_key);
                let value = doc.inner_text(child_id);
                inputs.push(FormInput { name, input_type: "textarea".to_owned(), value });
            } else if chars_eq(&t, &to_chars("button")) {
                let name = attr_val(attributes, &name_key);
                let btn_type = type_or_default(attributes, "submit");
                let value = attr_val(attributes, &to_chars("value"));
                let value = if value.as_str().is_empty() {
                    doc.inner_text(child_id)
                } else {
                    value
                };
                inputs.push(FormInput { name, input_type: btn_type, value });
            } else {
                collect_inputs(doc, child_id, inputs);
            }
        }
        proof {
            assert(inputs_view(inputs@) =~= before + added);
        }
        k += 1;
        assert(inputs_view(inputs@) =~= inputs_view(old(inputs)@) + inputs_children(
            doc,
            node_id as int,
            k as int,
        ));
    }
}

/// The form that the `<form>` element at node `i` describes.
fn form_at(doc: &Document, i: usize, attributes: &Vec<(String, String)>) -> (res: Form)
    requires
        doc.down_wf(),
        i < doc.len(),
        attributes@ == doc.attrs_of(i as int),
    ensures
        res@ == form_of(doc, i as int),
{
    let action = attr_val(attributes, &to_chars("action"));
    let method_raw = to_chars(attr_val(attributes, &to_chars("method")).as_str());
    let method = if chars_eq(&to_lower(&method_raw), &to_chars("post")) {
        "POST".to_owned()
    } else {
        "GET".to_owned()
    };
    proof {
        reveal_strlit("post");
        assert(lower("post"@) =~= "post"@);
    }
    let mut inputs: Vec<FormInput> = Vec::new();
    collect_inputs(doc, i, &mut inputs);
    assert(inputs_view(inputs@) =~= inputs_of(doc, i as int));
    Form { action, method, inputs }
}

/// Find all `<form>` elements and extract their fields.
pub fn find_forms(doc: &Document) -> (res: Vec<Form>)
    requires
        doc.down_wf(),
    ensures
        forms_view(res@) == forms_spec(doc),
{
    let mut forms: Vec<Form> = Vec::new();
    let form_tag = to_chars("form");
    let mut i: usize = 0;
    while i < doc.nodes.len()
        invariant
            doc.down_wf(),
            i <= doc.len(),
            form_tag@ == "form"@,
            forms_view(forms@) == forms_upto(doc, i as int),
        decreases doc.len() - i,
    {
        let node = &doc.nodes[i];
        assert(doc.node(i as int).id == i);
        let ghost before = forms_view(forms@);
        if let NodeData::Element { tag, attributes } = &node.data {
            if chars_eq(&to_chars(tag.as_str()), &form_tag) {
                let f = form_at(doc, node.id, attributes);
                forms.push(f);
            }
        }
        assert(forms_view(forms@) =~= forms_upto(doc, i + 1));
        i += 1;
    }
    forms
}

/// A copy of a form.
fn clone_form(form: &Form) -> (res: Form)
    ensures
        res@ == form@,
{
    let mut inputs: Vec<FormInput> = Vec::new();
    let mut k: usize = 0;
    while k < form.inputs.len()
        invariant
            k <= form.inputs@.len(),
            inputs@.len() == k,
            inputs_view(inputs@) == inputs_view(form.inputs@).take(k as int),
        decreases form.inputs@.len() - k,
    {
        let i = &form.inputs[k];
        inputs.push(
            FormInput {
                name: i.name.clone(),
                input_type: i.input_type.clone(),
                value: i.value.clone(),
            },
        );
        assert(inputs@[k as int]@ == form.inputs@[k as int]@);
        assert(inputs_view(inputs@) =~= inputs_view(form.inputs@).take(k + 1));
        k += 1;
    }
    assert(inputs_view(form.inputs@).take(form.inputs@.len() as int) =~= inputs_view(form.inputs@));
    Form { action: form.action.clone(), method: form.method.clone(), inputs }
}

fn has_password_input(form: &Form) -> (res: bool)
    ensures
        res == has_password(form@),
{
    let password = to_chars("password");
    let mut k: usize = 0;
    while k < form.inputs.len()
        invariant
            password@ == "password"@,
            k <= form.inputs@.len(),
            forall|j: int| 0 <= j < k ==> form.inputs@[j].input_type@ != "password"@,
        decreases form.inputs@.len() - k,
    {
        if chars_eq(&to_chars(form.inputs[k].input_type.as_str()), &password) {
            assert(form@.inputs[k as int].input_type == "password"@);
            return true;
        }
        k += 1;
    }
    proof {
        if has_password(form@) {
            let j = choose|j: int| 0 <= j < form@.inputs.len() && (#[trigger] form@.inputs[j]).input_type == "password"@;
            assert(form.inputs@[j].input_type@ == "password"@);
        }
    }
    false
}

fn keyword_list() -> (res: Vec<Vec<char>>)
    ensures
        vv(res@) == login_keywords(),
{
    let mut v: Vec<Vec<char>> = Vec::new();
    v.push(to_chars("login"));
    v.push(to_chars("auth"));
    v.push(to_chars("signin"));
    v.push(to_chars("sign-in"));
    v.push(to_chars("sign_in"));
    v.push(to_chars("oauth"));
    v.push(to_chars("session"));
    assert(vv(v@) =~= login_keywords());
    v
}

fn mentions_keyword(s: &[char], kws: &Vec<Vec<char>>) -> (res: bool)
    requires
        vv(kws@) == login_keywords(),
    ensures
        res == has_keyword(s@),
{
    let mut k: usize = 0;
    while k < kws.len()
        invariant
            vv(kws@) == login_keywords(),
            k <= kws@.len(),
            forall|j: int| 0 <= j < k ==> !contains(s@, #[trigger] login_keywords()[j]),
        decreases kws@.len() - k,
    {
        assert(login_keywords()[k as int] == kws@[k as int]@);
        if contains_seq(s, &kws[k]) {
            return true;
        }
        k += 1;
    }
    false
}

/// Find a login/OAuth form using heuristics:
/// 1. Has a password input field.
/// 2. Action URL contains login-related keywords.
/// 3. Form id/class contains login-related keywords.
/// 4. Fallback: the only form on the page.
#[verifier::loop_isolation(false)]
pub fn find_login_form(doc: &Document) -> (res: Option<Form>)
    requires
        doc.down_wf(),
    ensures
        match res {
            Some(f) => login_form_spec(doc) == Some(f@),
            None => login_form_spec(doc) is None,
        },
{
    let forms = find_forms(doc);
    let ghost fs = forms_spec(doc);
    let mut k: usize = 0;
    while k < forms.len()
        invariant
            forms_view(forms@) == fs,
            k <= forms@.len(),
            first_with_password(fs, k as int) == first_with_password(fs, 0),
        decreases forms@.len() - k,
    {
        assert(fs[k as int] == forms@[k as int]@);
        if has_password_input(&forms[k]) {
            return Some(clone_form(&forms[k]));
        }
        k += 1;
    }
    let kws = keyword_list();
    let mut k: usize = 0;
    while k < forms.len()
        invariant
            forms_view(forms@) == fs,
            vv(kws@) == login_keywords(),
            k <= forms@.len(),
            first_with_login_action(fs, k as int) == first_with_login_action(fs, 0),
        decreases forms@.len() - k,
    {
        assert(fs[k as int] == forms@[k as int]@);
        let action_lower = to_lower(&to_chars(forms[k].action.as_str()));
        if mentions_keyword(&action_lower, &kws) {
            return Some(clone_form(&forms[k]));
        }
        k += 1;
    }
    let form_tag = to_chars("form");
    let mut i: usize = 0;
    while i < doc.nodes.len()
        invariant
            doc.down_wf(),
            vv(kws@) == login_keywords(),
            form_tag@ == "form"@,
            i <= doc.len(),
            first_with_login_name(doc, i as int) == first_with_login_name(doc, 0),
        decreases doc.len() - i,
    {
        let node = &doc.nodes[i];
        assert(doc.node(i as int).id == i);
        if let NodeData::Element { tag, attributes } = &node.data {
            if chars_eq(&to_chars(tag.as_str()), &form_tag) {
                let mut combined = to_lower(&to_chars(attr_val(attributes, &to_chars("id")).as_str()));
                combined.push(' ');
                let class = to_lower(&to_chars(attr_val(attributes, &to_chars("class")).as_str()));
                push_all(&mut combined, &class);
                proof {
                    reveal_strlit(" ");
                    assert(combined@ =~= id_and_class(doc, i as int));
                }
                if mentions_keyword(&combined, &kws) {
                    return Some(form_at(doc, node.id, attributes));
                }
            }
        }
        i += 1;
    }
    if forms.len() == 1 {
        return Some(clone_form(&forms[0]));
    }
    None
}

} // verus!
