//! Minimal CSS selector matching.
//!
//! Supports a subset of CSS selectors sufficient for form detection:
//! - Tag name: `form`, `input`, `button`, `a`, `script`
//! - ID: `#login-form`
//! - Class: `.submit-btn`
//! - Attribute presence: `[type]`
//! - Attribute value: `[type="email"]`, `[name="password"]`
//! - Descendant combinator: `form input` (space-separated)
//! - Multiple selectors: `input, select, textarea` (comma-separated)

use vstd::prelude::*;
use crate::chars::{
    chars_eq, find, find_from, list_contains, index_of, lemma_find_from_bounds, lemma_scan_to_bounds, lower,
    opt_int, scan_to, slice_of, split_words, to_chars, to_lower, trim, trim_chars, vv, words,
    ends_with_char, starts_with_char,
};
use crate::parser::{attr_lookup, attr_or_empty, attr_val, find_attr, Document, NodeData};

verus! {

// --- Abstract model ------------------------------------------------------

/// An attribute condition: the attribute must exist, and have `value` if one is given.
pub struct AttrSpec {
    pub name: Seq<char>,
    pub value: Option<Seq<char>>,
}

/// A simple selector: conditions on one element.
pub struct SimpleSpec {
    pub tag: Option<Seq<char>>,
    pub id: Option<Seq<char>>,
    pub classes: Seq<Seq<char>>,
    pub attrs: Seq<AttrSpec>,
}

pub open spec fn opt_view(o: Option<Vec<char>>) -> Option<Seq<char>> {
    match o {
        Some(v) => Some(v@),
        None => None,
    }
}

// --- Types ---------------------------------------------------------------

/// A parsed CSS selector (may contain comma-separated alternatives).
pub struct Selector {
    alternatives: Vec<SelectorChain>,
}

/// A descendant-combinator chain: `form input[type="email"]` becomes two parts.
struct SelectorChain {
    parts: Vec<SimpleSelector>,
}

/// A single simple selector matching one element.
struct SimpleSelector {
    tag: Option<Vec<char>>,
    id: Option<Vec<char>>,
    classes: Vec<Vec<char>>,
    attrs: Vec<AttrMatcher>,
}

struct AttrMatcher {
    name: Vec<char>,
    value: Option<Vec<char>>,
}

impl View for AttrMatcher {
    type V = AttrSpec;

    closed spec fn view(&self) -> AttrSpec {
        AttrSpec { name: self.name@, value: opt_view(self.value) }
    }
}

impl View for SimpleSelector {
    type V = SimpleSpec;

    closed spec fn view(&self) -> SimpleSpec {
        SimpleSpec {
            tag: opt_view(self.tag),
            id: opt_view(self.id),
            classes: vv(self.classes@),
            attrs: self.attrs@.map_values(|a: AttrMatcher| a@),
        }
    }
}

impl View for SelectorChain {
    type V = Seq<SimpleSpec>;

    closed spec fn view(&self) -> Seq<SimpleSpec> {
        self.parts@.map_values(|p: SimpleSelector| p@)
    }
}

impl View for Selector {
    type V = Seq<Seq<SimpleSpec>>;

    /// The alternatives, each a chain of simple selectors from outermost to innermost.
    closed spec fn view(&self) -> Seq<Seq<SimpleSpec>> {
        self.alternatives@.map_values(|c: SelectorChain| c@)
    }
}

// --- Parsing: specification ----------------------------------------------

/// The characters that start a new component of a simple selector.
pub open spec fn is_delim(c: char) -> bool {
    c == '#' || c == '.' || c == '['
}

/// First index at or after `i` holding a component delimiter (or the length).
pub open spec fn scan_delim(s: Seq<char>, i: int) -> int
    decreases s.len() - i,
{
    if 0 <= i < s.len() && !is_delim(s[i]) {
        scan_delim(s, i + 1)
    } else {
        i
    }
}

/// The leading tag name of a simple selector, lowercased; `*` and an empty name give none.
pub open spec fn lead_tag(s: Seq<char>) -> Option<Seq<char>> {
    let t = s.subrange(0, scan_delim(s, 0));
    if t.len() > 0 && t != seq!['*'] {
        Some(lower(t))
    } else {
        None
    }
}

/// The value of an attribute condition, with one pair of matching quotes removed.
pub open spec fn unquote(v: Seq<char>) -> Seq<char> {
    if (v.len() > 0 && v[0] == '"' && v[v.len() - 1] == '"') || (v.len() > 0 && v[0] == '\''
        && v[v.len() - 1] == '\'') {
        v.subrange(1, v.len() - 1)
    } else {
        v
    }
}

/// The text between `[` and `]` is one the parser accepts: a value that is a lone
/// quote character cannot be unquoted.
pub open spec fn attr_text_ok(a: Seq<char>) -> bool {
    match find_from(a, seq!['='], 0) {
        Some(eq) => {
            let v = trim(a.subrange(eq + 1, a.len() as int));
            !(v.len() == 1 && (v[0] == '"' || v[0] == '\''))
        },
        None => true,
    }
}

/// `sel` with the condition written between `[` and `]` added.
pub open spec fn with_attr(sel: SimpleSpec, a: Seq<char>) -> SimpleSpec {
    match find_from(a, seq!['='], 0) {
        Some(eq) => {
            let name = lower(trim(a.subrange(0, eq)));
            let v = unquote(trim(a.subrange(eq + 1, a.len() as int)));
            SimpleSpec { attrs: sel.attrs.push(AttrSpec { name, value: Some(v) }), ..sel }
        },
        None => {
            let name = lower(trim(a));
            if name.len() > 0 {
                SimpleSpec { attrs: sel.attrs.push(AttrSpec { name, value: None }), ..sel }
            } else {
                sel
            }
        },
    }
}

/// The components of a simple selector from index `pos` on, added to `sel`.
pub open spec fn scan_rest(s: Seq<char>, pos: int, sel: SimpleSpec) -> SimpleSpec
    decreases s.len() - pos,
{
    if pos < 0 || pos >= s.len() {
        sel
    } else if s[pos] == '#' {
        let e = scan_delim(s, pos + 1);
        if e <= pos || e > s.len() {
            sel
        } else {
            scan_rest(s, e, SimpleSpec { id: Some(s.subrange(pos + 1, e)), ..sel })
        }
    } else if s[pos] == '.' {
        let e = scan_delim(s, pos + 1);
        if e <= pos || e > s.len() {
            sel
        } else if pos + 1 < e {
            scan_rest(s, e, SimpleSpec { classes: sel.classes.push(s.subrange(pos + 1, e)), ..sel })
        } else {
            scan_rest(s, e, sel)
        }
    } else if s[pos] == '[' {
        let e = scan_to(s, pos + 1, ']');
        if e <= pos || e > s.len() {
            sel
        } else {
            let next = if e < s.len() { e + 1 } else { e };
            scan_rest(s, next, with_attr(sel, s.subrange(pos + 1, e)))
        }
    } else {
        scan_rest(s, pos + 1, sel)
    }
}

/// Every `[...]` component from index `pos` on is one the parser accepts.
pub open spec fn scan_ok(s: Seq<char>, pos: int) -> bool
    decreases s.len() - pos,
{
    if pos < 0 || pos >= s.len() {
        true
    } else if s[pos] == '#' || s[pos] == '.' {
        let e = scan_delim(s, pos + 1);
        if e <= pos || e > s.len() {
            true
        } else {
            scan_ok(s, e)
        }
    } else if s[pos] == '[' {
        let e = scan_to(s, pos + 1, ']');
        if e <= pos || e > s.len() {
            true
        } else {
            let next = if e < s.len() { e + 1 } else { e };
            attr_text_ok(s.subrange(pos + 1, e)) && scan_ok(s, next)
        }
    } else {
        scan_ok(s, pos + 1)
    }
}

/// The simple selector with no condition but the given tag.
pub open spec fn empty_simple(tag: Option<Seq<char>>) -> SimpleSpec {
    SimpleSpec { tag, id: None, classes: Seq::empty(), attrs: Seq::empty() }
}

/// A simple selector (one whitespace-free token), or none if it states no condition.
pub open spec fn parse_simple_spec(s: Seq<char>) -> Option<SimpleSpec> {
    let sel = scan_rest(s, scan_delim(s, 0), empty_simple(lead_tag(s)));
    if sel.tag is None && sel.id is None && sel.classes.len() == 0 && sel.attrs.len() == 0 {
        None
    } else {
        Some(sel)
    }
}

/// The simple selectors of a list of tokens, skipping those that state nothing.
pub open spec fn simples(ws: Seq<Seq<char>>) -> Seq<SimpleSpec>
    decreases ws.len(),
{
    if ws.len() == 0 {
        Seq::empty()
    } else {
        simples(ws.drop_last()) + match parse_simple_spec(ws.last()) {
            Some(x) => seq![x],
            None => Seq::empty(),
        }
    }
}

/// A descendant chain: the simple selectors of its whitespace-separated tokens.
pub open spec fn parse_chain_spec(s: Seq<char>) -> Option<Seq<SimpleSpec>> {
    let parts = simples(words(s));
    if words(s).len() == 0 || parts.len() == 0 {
        None
    } else {
        Some(parts)
    }
}

/// Every token of a chain is one the parser accepts.
pub open spec fn chain_ok(s: Seq<char>) -> bool {
    forall|k: int| 0 <= k < words(s).len() ==> scan_ok(#[trigger] words(s)[k], scan_delim(words(s)[k], 0))
}

/// The chains of the comma-separated pieces of `t` from index `i` on.
pub open spec fn alts_from(t: Seq<char>, i: int) -> Seq<Seq<SimpleSpec>>
    decreases t.len() + 1 - i,
{
    if i < 0 || i > t.len() {
        Seq::empty()
    } else {
        let j = scan_to(t, i, ',');
        if j < i || j > t.len() {
            Seq::empty()
        } else {
            let piece = trim(t.subrange(i, j));
            let this = if piece.len() == 0 {
                Seq::empty()
            } else {
                match parse_chain_spec(piece) {
                    Some(c) => seq![c],
                    None => Seq::empty(),
                }
            };
            this + if j < t.len() { alts_from(t, j + 1) } else { Seq::empty() }
        }
    }
}

/// Every comma-separated piece of `t` from index `i` on is one the parser accepts.
pub open spec fn alts_ok(t: Seq<char>, i: int) -> bool
    decreases t.len() + 1 - i,
{
    if i < 0 || i > t.len() {
        true
    } else {
        let j = scan_to(t, i, ',');
        if j < i || j > t.len() {
            true
        } else {
            chain_ok(trim(t.subrange(i, j))) && (j < t.len() ==> alts_ok(t, j + 1))
        }
    }
}

/// The selector that a string denotes: none when it is blank or states no condition.
pub open spec fn parse_spec(s: Seq<char>) -> Option<Seq<Seq<SimpleSpec>>> {
    let t = trim(s);
    if t.len() == 0 || alts_from(t, 0).len() == 0 {
        None
    } else {
        Some(alts_from(t, 0))
    }
}

/// The string is one `Selector::parse` accepts without failing: no attribute
/// condition has a lone quote character as its value.
pub open spec fn parse_ok(s: Seq<char>) -> bool {
    alts_ok(trim(s), 0)
}

/// The view of an optional simple selector.
spec fn simple_opt(o: Option<SimpleSelector>) -> Option<SimpleSpec> {
    match o {
        Some(x) => Some(x@),
        None => None,
    }
}

/// The view of an optional chain.
spec fn chain_opt(o: Option<SelectorChain>) -> Option<Seq<SimpleSpec>> {
    match o {
        Some(x) => Some(x@),
        None => None,
    }
}

/// The view of an optional selector.
pub open spec fn selector_opt(o: Option<Selector>) -> Option<Seq<Seq<SimpleSpec>>> {
    match o {
        Some(x) => Some(x@),
        None => None,
    }
}

// --- Parsing: implementation ---------------------------------------------

proof fn lemma_scan_delim_bounds(s: Seq<char>, i: int)
    requires
        0 <= i <= s.len(),
    ensures
        i <= scan_delim(s, i) <= s.len(),
    decreases s.len() - i,
{
    if i < s.len() && !is_delim(s[i]) {
        lemma_scan_delim_bounds(s, i + 1);
    }
}

fn is_delim_char(c: char) -> (res: bool)
    ensures
        res == is_delim(c),
{
    c == '#' || c == '.' || c == '['
}

fn scan_delim_exec(s: &[char], i: usize) -> (res: usize)
    requires
        i <= s@.len(),
    ensures
        res == scan_delim(s@, i as int),
        i <= res <= s@.len(),
{
    proof {
        lemma_scan_delim_bounds(s@, i as int);
    }
    let mut k = i;
    while k < s.len() && !is_delim_char(s[k])
        invariant
            i <= k <= s@.len(),
            scan_delim(s@, k as int) == scan_delim(s@, i as int),
        decreases s@.len() - k,
    {
        k += 1;
    }
    k
}

/// Adds the condition written between `[` and `]`.
fn add_attr(sel: &mut SimpleSelector, a: &[char])
    requires
        attr_text_ok(a@),
    ensures
        final(sel)@ == with_attr(old(sel)@, a@),
{
    let eq_sign: [char; 1] = ['='];
    assert(eq_sign@ =~= seq!['=']);
    match find(a, &eq_sign, 0) {
        Some(eq) => {
            proof {
                lemma_find_from_bounds(a@, seq!['='], 0);
                assert(seq!['='].len() == 1);
                assert(eq + 1 <= a@.len());
            }
            let alen = a.len();
            let name = to_lower(&trim_chars(&slice_of(a, 0, eq)));
            let mut value = trim_chars(&slice_of(a, eq + 1, alen));
            if (starts_with_char(&value, '"') && ends_with_char(&value, '"')) || (starts_with_char(
                &value,
                '\'',
            ) && ends_with_char(&value, '\'')) {
                value = slice_of(&value, 1, value.len() - 1);
            }
            let ghost old_attrs = sel.attrs@;
            sel.attrs.push(AttrMatcher { name, value: Some(value) });
            proof {
                assert(sel.attrs@.map_values(|m: AttrMatcher| m@) =~= old_attrs.map_values(
                    |m: AttrMatcher| m@,
                ).push(sel.attrs@.last()@));
            }
        },
        None => {
            let name = to_lower(&trim_chars(a));
            if name.len() > 0 {
                let ghost old_attrs = sel.attrs@;
                sel.attrs.push(AttrMatcher { name, value: None });
                proof {
                    assert(sel.attrs@.map_values(|m: AttrMatcher| m@) =~= old_attrs.map_values(
                        |m: AttrMatcher| m@,
                    ).push(sel.attrs@.last()@));
                }
            }
        },
    }
}

/// Parses one whitespace-free token into a simple selector.
fn parse_simple(s: &[char]) -> (res: Option<SimpleSelector>)
    requires
        scan_ok(s@, scan_delim(s@, 0)),
    ensures
        simple_opt(res) == parse_simple_spec(s@),
{
    let p0 = scan_delim_exec(s, 0);
    let head = slice_of(s, 0, p0);
    let tag = if head.len() > 0 && !(head.len() == 1 && head[0] == '*') {
        Some(to_lower(&head))
    } else {
        None
    };
    proof {
        if head.len() == 1 && head@[0] == '*' {
            assert(head@ =~= seq!['*']);
        }
    }
    let mut sel = SimpleSelector { tag, id: None, classes: Vec::new(), attrs: Vec::new() };
    proof {
        assert(sel@.classes =~= Seq::<Seq<char>>::empty());
        assert(sel@.attrs =~= Seq::<AttrSpec>::empty());
        assert(sel@ == empty_simple(lead_tag(s@)));
    }
    let mut pos = p0;
    while pos < s.len()
        invariant
            p0 <= pos <= s@.len(),
            scan_rest(s@, pos as int, sel@) == scan_rest(s@, p0 as int, empty_simple(lead_tag(s@))),
            scan_ok(s@, pos as int),
        decreases s@.len() - pos,
    {
        let c = s[pos];
        if c == '#' {
            let e = scan_delim_exec(s, pos + 1);
            sel.id = Some(slice_of(s, pos + 1, e));
            pos = e;
        } else if c == '.' {
            let e = scan_delim_exec(s, pos + 1);
            if pos + 1 < e {
                let ghost old_classes = sel.classes@;
                sel.classes.push(slice_of(s, pos + 1, e));
                proof {
                    assert(vv(sel.classes@) =~= vv(old_classes).push(s@.subrange(pos + 1, e as int)));
                }
            }
            pos = e;
        } else if c == '[' {
            let e = index_of(s, pos + 1, ']');
            proof {
                lemma_scan_to_bounds(s@, pos + 1, ']');
            }
            let a = slice_of(s, pos + 1, e);
            add_attr(&mut sel, &a);
            if e < s.len() {
                pos = e + 1;
            } else {
                pos = e;
            }
        } else {
            pos += 1;
        }
    }
    if sel.tag.is_none() && sel.id.is_none() && sel.classes.len() == 0 && sel.attrs.len() == 0 {
        None
    } else {
        Some(sel)
    }
}

/// Parses a descendant chain: its whitespace-separated tokens.
fn parse_chain(s: &[char]) -> (res: Option<SelectorChain>)
    requires
        chain_ok(s@),
    ensures
        chain_opt(res) == parse_chain_spec(s@),
{
    let tokens = split_words(s);
    if tokens.len() == 0 {
        return None;
    }
    let ghost ws = vv(tokens@);
    let mut parts: Vec<SimpleSelector> = Vec::new();
    let mut k: usize = 0;
    while k < tokens.len()
        invariant
            ws == vv(tokens@),
            ws == words(s@),
            chain_ok(s@),
            k <= tokens@.len(),
            parts@.map_values(|p: SimpleSelector| p@) == simples(ws.take(k as int)),
        decreases tokens@.len() - k,
    {
        assert(ws[k as int] == tokens@[k as int]@);
        let ghost before = parts@.map_values(|p: SimpleSelector| p@);
        match parse_simple(&tokens[k]) {
            Some(p) => {
                parts.push(p);
                assert(parts@.map_values(|p: SimpleSelector| p@) =~= before.push(
                    parts@.last()@,
                ));
            },
            None => {},
        }
        assert(ws.take(k + 1).drop_last() =~= ws.take(k as int));
        k += 1;
    }
    assert(ws.take(tokens@.len() as int) =~= ws);
    if parts.len() == 0 {
        None
    } else {
        Some(SelectorChain { parts })
    }
}

impl Selector {
    /// Parse a CSS selector string. Returns `None` if the string is empty
    /// or none of its comma-separated alternatives states a condition.
    pub fn parse(s: &str) -> (res: Option<Self>)
        requires
            parse_ok(s@),
        ensures
            selector_opt(res) == parse_spec(s@),
    {
        let cs = to_chars(s);
        let t = trim_chars(&cs);
        if t.len() == 0 {
            return None;
        }
        let mut alternatives: Vec<SelectorChain> = Vec::new();
        let mut i: usize = 0;
        assert(alternatives@.map_values(|c: SelectorChain| c@) + alts_from(t@, 0) =~= alts_from(
            t@,
            0,
        ));
        loop
            invariant_except_break
                alternatives@.map_values(|c: SelectorChain| c@) + alts_from(t@, i as int)
                    == alts_from(t@, 0),
            invariant
                t@ == trim(s@),
                i <= t@.len(),
                alts_ok(t@, i as int),
            ensures
                alternatives@.map_values(|c: SelectorChain| c@) == alts_from(t@, 0),
            decreases t@.len() - i,
        {
            let j = index_of(&t, i, ',');
            proof {
                lemma_scan_to_bounds(t@, i as int, ',');
            }
            let piece = trim_chars(&slice_of(&t, i, j));
            let ghost before = alternatives@.map_values(|c: SelectorChain| c@);
            let ghost this: Seq<Seq<SimpleSpec>> = if piece@.len() == 0 {
                Seq::empty()
            } else {
                match parse_chain_spec(piece@) {
                    Some(c) => seq![c],
                    None => Seq::empty(),
                }
            };
            if piece.len() > 0 {
                match parse_chain(&piece) {
                    Some(chain) => {
                        alternatives.push(chain);
                        assert(alternatives@.map_values(|c: SelectorChain| c@) =~= before
                            + this);
                    },
                    None => {
                        assert(alternatives@.map_values(|c: SelectorChain| c@) =~= before
                            + this);
                    },
                }
            } else {
                assert(alternatives@.map_values(|c: SelectorChain| c@) =~= before + this);
            }
            if j < t.len() {
                assert(alts_from(t@, i as int) == this + alts_from(t@, j + 1));
                assert(before + alts_from(t@, i as int) =~= (before + this) + alts_from(t@, j + 1));
                i = j + 1;
            } else {
                assert(alts_from(t@, i as int) == this + Seq::<Seq<SimpleSpec>>::empty());
                assert(alternatives@.map_values(|c: SelectorChain| c@) =~= alts_from(t@, 0));
                break;
            }
        }
        if alternatives.len() == 0 {
            None
        } else {
            Some(Selector { alternatives })
        }
    }
}

// --- Matching: specification ---------------------------------------------

/// The attribute condition `m` holds for an element with attributes `attrs`.
pub open spec fn attr_cond_holds(attrs: Seq<(String, String)>, m: AttrSpec) -> bool {
    match attr_lookup(attrs, m.name) {
        None => false,
        Some(v) => match m.value {
            None => true,
            Some(e) => v == e,
        },
    }
}

/// Node `i` is an element that meets every condition of `sel`.
pub open spec fn simple_matches_spec(doc: &Document, i: int, sel: SimpleSpec) -> bool {
    match doc.node(i).data {
        NodeData::Element { tag, attributes } => {
            &&& (sel.tag matches Some(t) ==> tag@ == t)
            &&& (sel.id matches Some(x) ==> attr_lookup(attributes@, "id"@) == Some(x))
            &&& forall|k: int|
                0 <= k < sel.classes.len() ==> words(attr_or_empty(attributes@, "class"@)).contains(
                    #[trigger] sel.classes[k],
                )
            &&& forall|k: int|
                0 <= k < sel.attrs.len() ==> attr_cond_holds(attributes@, #[trigger] sel.attrs[k])
        },
        _ => false,
    }
}

/// `w` is one of the whitespace-separated words of `s`: it stands in `s` with
/// whitespace or an end of `s` on either side, and holds no whitespace itself.
pub open spec fn is_word_of(s: Seq<char>, w: Seq<char>) -> bool {
    exists|a: int, b: int|
        0 <= a < b <= s.len() && #[trigger] s.subrange(a, b) == w && (a == 0 || crate::chars::is_ws(s[a - 1]))
            && (b == s.len() || crate::chars::is_ws(s[b])) && forall|k: int|
            a <= k < b ==> !crate::chars::is_ws(#[trigger] s[k])
}

proof fn lemma_words_are_words(s: Seq<char>, i: int)
    requires
        0 <= i <= s.len(),
        i == 0 || crate::chars::is_ws(s[i - 1]) || (i < s.len() && crate::chars::is_ws(s[i])),
    ensures
        forall|k: int| 0 <= k < crate::chars::words_from(s, i).len() ==> is_word_of(s, #[trigger] crate::chars::words_from(s, i)[k]),
    decreases s.len() - i,
{
    crate::chars::lemma_skip_ws_bounds(s, i);
    let a = crate::chars::skip_ws(s, i);
    if a < s.len() {
        crate::chars::lemma_skip_word_bounds(s, a);
        let b = crate::chars::skip_word(s, a);
        if i < b <= s.len() {
            assert(a == 0 || crate::chars::is_ws(s[a - 1])) by {
                if a > i {
                    assert(crate::chars::is_ws(s[a - 1]));
                }
            }
            assert(b > a);
            assert(is_word_of(s, s.subrange(a, b)));
            if b < s.len() {
                lemma_words_are_words(s, b);
            }
            let ws = crate::chars::words_from(s, i);
            assert forall|k: int| 0 <= k < ws.len() implies is_word_of(s, #[trigger] ws[k]) by {
                if k > 0 {
                    assert(ws[k] == crate::chars::words_from(s, b)[k - 1]);
                }
            }
        }
    }
}

/// A simple selector matches only elements: with a tag condition, of that tag;
/// with an id condition, whose `id` attribute is exactly that id.
pub proof fn lemma_simple_match_tag_and_id(doc: &Document, i: int, sel: SimpleSpec)
    requires
        simple_matches_spec(doc, i, sel),
    ensures
        doc.tag_of(i) is Some,
        sel.tag matches Some(t) ==> doc.tag_of(i) == Some(t),
        sel.id matches Some(x) ==> attr_or_empty(doc.attrs_of(i), "id"@) == x,
{
}

/// A class condition `.c` holds for an element only when `c` is one of the
/// whitespace-separated words of its `class` attribute (so `.btn` never holds
/// for `class="btn-primary"`).
pub proof fn lemma_class_is_a_word(doc: &Document, i: int, sel: SimpleSpec, k: int)
    requires
        simple_matches_spec(doc, i, sel),
        0 <= k < sel.classes.len(),
    ensures
        is_word_of(attr_or_empty(doc.attrs_of(i), "class"@), sel.classes[k]),
{
    let s = attr_or_empty(doc.attrs_of(i), "class"@);
    lemma_words_are_words(s, 0);
    assert(words(s).contains(sel.classes[k]));
    let m = choose|m: int| 0 <= m < words(s).len() && words(s)[m] == sel.classes[k];
    assert(is_word_of(s, words(s)[m]));
}

/// Walking up from `anc`, the parts `parts[0..=idx]` are met, innermost first,
/// each by the nearest remaining ancestor that meets it.
pub open spec fn climb(doc: &Document, anc: Option<usize>, parts: Seq<SimpleSpec>, idx: int) -> bool
    decreases (match anc {
        Some(a) => a as int + 1,
        None => 0int,
    }),
{
    match anc {
        None => false,
        Some(a) => {
            if a < doc.len() && 0 <= idx < parts.len() {
                let up = doc.node(a as int).parent;
                let up_ok = match up {
                    Some(p) => p < a,
                    None => true,
                };
                if !up_ok {
                    false
                } else if simple_matches_spec(doc, a as int, parts[idx]) {
                    if idx == 0 {
                        true
                    } else {
                        climb(doc, up, parts, idx - 1)
                    }
                } else {
                    climb(doc, up, parts, idx)
                }
            } else {
                false
            }
        },
    }
}

/// Node `i` meets the last part of the chain and its ancestors meet the others.
pub open spec fn chain_matches_spec(doc: &Document, i: int, parts: Seq<SimpleSpec>) -> bool {
    &&& parts.len() > 0
    &&& simple_matches_spec(doc, i, parts.last())
    &&& (parts.len() == 1 || climb(doc, doc.node(i).parent, parts, parts.len() - 2))
}

/// Node `i` matches one of the alternatives.
pub open spec fn matches_spec(doc: &Document, i: int, alts: Seq<Seq<SimpleSpec>>) -> bool {
    exists|k: int| 0 <= k < alts.len() && chain_matches_spec(doc, i, #[trigger] alts[k])
}

// --- Laws of alternatives ------------------------------------------------

proof fn lemma_scan_to_shift(p: Seq<char>, q: Seq<char>, i: int, c: char)
    requires
        0 <= i <= q.len(),
    ensures
        scan_to(p + q, p.len() + i, c) == p.len() + scan_to(q, i, c),
    decreases q.len() - i,
{
    if i < q.len() {
        assert((p + q)[p.len() + i] == q[i]);
        if q[i] != c {
            lemma_scan_to_shift(p, q, i + 1, c);
        }
    }
}

proof fn lemma_scan_to_first(t: Seq<char>, i: int, e: int, c: char)
    requires
        0 <= i <= e < t.len(),
        t[e] == c,
        forall|k: int| i <= k < e ==> t[k] != c,
    ensures
        scan_to(t, i, c) == e,
    decreases e - i,
{
    if i < e {
        lemma_scan_to_first(t, i + 1, e, c);
    }
}

proof fn lemma_scan_to_none(t: Seq<char>, i: int, c: char)
    requires
        0 <= i <= t.len(),
        forall|k: int| i <= k < t.len() ==> t[k] != c,
    ensures
        scan_to(t, i, c) == t.len(),
    decreases t.len() - i,
{
    if i < t.len() {
        lemma_scan_to_none(t, i + 1, c);
    }
}

proof fn lemma_alts_shift(p: Seq<char>, q: Seq<char>, i: int)
    requires
        0 <= i <= q.len(),
    ensures
        alts_from(p + q, p.len() + i) == alts_from(q, i),
    decreases q.len() + 1 - i,
{
    let t = p + q;
    lemma_scan_to_shift(p, q, i, ',');
    crate::chars::lemma_scan_to_bounds(q, i, ',');
    let j = scan_to(q, i, ',');
    assert(t.subrange(p.len() + i, p.len() + j) =~= q.subrange(i, j));
    if j < q.len() {
        lemma_alts_shift(p, q, j + 1);
    }
}

/// Comma-separated alternatives: writing `a,b` gives the alternatives of `a`
/// followed by those of `b`, when `a` itself holds no comma.
pub proof fn lemma_alternatives_concat(a: Seq<char>, b: Seq<char>)
    requires
        !a.contains(','),
    ensures
        alts_from(a + seq![','] + b, 0) == alts_from(a, 0) + alts_from(b, 0),
{
    let p = a + seq![','];
    let t = p + b;
    assert forall|k: int| 0 <= k < a.len() implies t[k] != ',' by {
        assert(t[k] == a[k]);
    }
    assert(t[a.len() as int] == ',');
    lemma_scan_to_first(t, 0, a.len() as int, ',');
    lemma_scan_to_none(a, 0, ',');
    assert(t.subrange(0, a.len() as int) =~= a.subrange(0, a.len() as int));
    lemma_alts_shift(p, b, 0);
    assert(alts_from(a, 0) == alts_from(a, 0) + Seq::<Seq<SimpleSpec>>::empty());
}

/// A node matches a list of alternatives made of two lists exactly when it
/// matches one of them.
pub proof fn lemma_matches_union(doc: &Document, i: int, x: Seq<Seq<SimpleSpec>>, y: Seq<Seq<SimpleSpec>>)
    ensures
        matches_spec(doc, i, x + y) <==> matches_spec(doc, i, x) || matches_spec(doc, i, y),
{
    let xy = x + y;
    if matches_spec(doc, i, xy) {
        let k = choose|k: int| 0 <= k < xy.len() && chain_matches_spec(doc, i, #[trigger] xy[k]);
        if k < x.len() {
            assert(xy[k] == x[k]);
        } else {
            assert(xy[k] == y[k - x.len()]);
        }
    }
    if matches_spec(doc, i, x) {
        let k = choose|k: int| 0 <= k < x.len() && chain_matches_spec(doc, i, #[trigger] x[k]);
        assert(xy[k] == x[k]);
    }
    if matches_spec(doc, i, y) {
        let k = choose|k: int| 0 <= k < y.len() && chain_matches_spec(doc, i, #[trigger] y[k]);
        assert(xy[x.len() + k] == y[k]);
    }
}

proof fn lemma_skip_ws_at(u: Seq<char>, i: int, x: int)
    requires
        0 <= i <= x < u.len(),
        forall|k: int| i <= k < x ==> crate::chars::is_ws(#[trigger] u[k]),
        !crate::chars::is_ws(u[x]),
    ensures
        crate::chars::skip_ws(u, i) == x,
    decreases x - i,
{
    if i < x {
        lemma_skip_ws_at(u, i + 1, x);
    }
}

proof fn lemma_back_ws_at(u: Seq<char>, lo: int, j: int, y: int)
    requires
        lo < y <= j <= u.len(),
        forall|k: int| y <= k < j ==> crate::chars::is_ws(#[trigger] u[k]),
        !crate::chars::is_ws(u[y - 1]),
    ensures
        crate::chars::back_ws(u, lo, j) == y,
    decreases j - y,
{
    if y < j {
        lemma_back_ws_at(u, lo, j - 1, y);
    }
}

/// `trim` keeps exactly the part from the first to the last character that is
/// not whitespace.
proof fn lemma_trim_is(u: Seq<char>, x: int, y: int)
    requires
        0 <= x < y <= u.len(),
        forall|k: int| 0 <= k < x ==> crate::chars::is_ws(#[trigger] u[k]),
        forall|k: int| y <= k < u.len() ==> crate::chars::is_ws(#[trigger] u[k]),
        !crate::chars::is_ws(u[x]),
        !crate::chars::is_ws(u[y - 1]),
    ensures
        trim(u) == u.subrange(x, y),
{
    lemma_skip_ws_at(u, 0, x);
    lemma_back_ws_at(u, x, u.len() as int, y);
}

/// The bounds of the trimmed part of a string that is not blank.
proof fn lemma_trim_bounds(u: Seq<char>) -> (xy: (int, int))
    requires
        trim(u).len() > 0,
    ensures
        0 <= xy.0 < xy.1 <= u.len(),
        trim(u) == u.subrange(xy.0, xy.1),
        forall|k: int| 0 <= k < xy.0 ==> crate::chars::is_ws(#[trigger] u[k]),
        forall|k: int| xy.1 <= k < u.len() ==> crate::chars::is_ws(#[trigger] u[k]),
        !crate::chars::is_ws(u[xy.0]),
        !crate::chars::is_ws(u[xy.1 - 1]),
{
    crate::chars::lemma_skip_ws_bounds(u, 0);
    let x = crate::chars::skip_ws(u, 0);
    crate::chars::lemma_back_ws_bounds(u, x, u.len() as int);
    let y = crate::chars::back_ws(u, x, u.len() as int);
    (x, y)
}

/// The alternatives of one comma-free piece.
spec fn one_alt(p: Seq<char>) -> Seq<Seq<SimpleSpec>> {
    if p.len() == 0 {
        Seq::empty()
    } else {
        match parse_chain_spec(p) {
            Some(c) => seq![c],
            None => Seq::empty(),
        }
    }
}

proof fn lemma_alts_single(u: Seq<char>)
    requires
        !u.contains(','),
    ensures
        alts_from(u, 0) == one_alt(trim(u)),
{
    lemma_scan_to_none(u, 0, ',');
    assert(u.subrange(0, u.len() as int) =~= u);
    assert(one_alt(trim(u)) + Seq::<Seq<SimpleSpec>>::empty() =~= one_alt(trim(u)));
}

/// The selector `a,b`, for selectors `a` and `b` that hold no comma and both
/// state conditions, surrounded by any whitespace (as in `input, select`), has
/// the alternatives of `a` followed by those of `b`, and matches a node exactly
/// when `a` or `b` does.
pub proof fn lemma_selector_union(a: Seq<char>, b: Seq<char>, doc: &Document, i: int)
    requires
        !a.contains(','),
        !b.contains(','),
        parse_spec(a) is Some,
        parse_spec(b) is Some,
    ensures
        parse_spec(a + seq![','] + b) == Some(parse_spec(a)->0 + parse_spec(b)->0),
        matches_spec(doc, i, parse_spec(a + seq![','] + b)->0) <==> matches_spec(
            doc,
            i,
            parse_spec(a)->0,
        ) || matches_spec(doc, i, parse_spec(b)->0),
{
    let la = a.len() as int;
    let t = a + seq![','] + b;
    let (xa, ya) = lemma_trim_bounds(a);
    let (xb, yb) = lemma_trim_bounds(b);
    assert forall|k: int| 0 <= k < xa implies crate::chars::is_ws(#[trigger] t[k]) by {
        assert(t[k] == a[k]);
    }
    assert forall|k: int| la + 1 + yb <= k < t.len() implies crate::chars::is_ws(#[trigger] t[k]) by {
        assert(t[k] == b[k - la - 1]);
    }
    assert(t[xa] == a[xa]);
    assert(t[la + 1 + yb - 1] == b[yb - 1]);
    lemma_trim_is(t, xa, la + 1 + yb);
    let ta = a.subrange(xa, la);
    let tb = b.subrange(0, yb);
    assert(trim(t) =~= ta + seq![','] + tb);
    assert(!ta.contains(',')) by {
        if ta.contains(',') {
            let k = choose|k: int| 0 <= k < ta.len() && ta[k] == ',';
            assert(a[xa + k] == ',');
        }
    }
    assert(!tb.contains(',')) by {
        if tb.contains(',') {
            let k = choose|k: int| 0 <= k < tb.len() && tb[k] == ',';
            assert(b[k] == ',');
        }
    }
    lemma_alternatives_concat(ta, tb);
    assert forall|k: int| ya - xa <= k < ta.len() implies crate::chars::is_ws(#[trigger] ta[k]) by {
        assert(ta[k] == a[xa + k]);
    }
    assert(ta[0] == a[xa] && ta[ya - xa - 1] == a[ya - 1]);
    lemma_trim_is(ta, 0, ya - xa);
    assert(trim(ta) =~= trim(a));
    assert forall|k: int| 0 <= k < xb implies crate::chars::is_ws(#[trigger] tb[k]) by {
        assert(tb[k] == b[k]);
    }
    assert(tb[xb] == b[xb] && tb[yb - 1] == b[yb - 1]);
    lemma_trim_is(tb, xb, yb);
    assert(trim(tb) =~= trim(b));
    lemma_alts_single(ta);
    lemma_alts_single(tb);
    assert(!trim(a).contains(',')) by {
        if trim(a).contains(',') {
            let k = choose|k: int| 0 <= k < trim(a).len() && trim(a)[k] == ',';
            assert(a[xa + k] == ',');
        }
    }
    assert(!trim(b).contains(',')) by {
        if trim(b).contains(',') {
            let k = choose|k: int| 0 <= k < trim(b).len() && trim(b)[k] == ',';
            assert(b[xb + k] == ',');
        }
    }
    lemma_alts_single(trim(a));
    lemma_alts_single(trim(b));
    crate::chars::lemma_trim_idempotent(a);
    crate::chars::lemma_trim_idempotent(b);
    lemma_matches_union(doc, i, parse_spec(a)->0, parse_spec(b)->0);
}

/// The README form `a, b`: a comma and a space between two comma-free
/// selectors that state conditions give the union of the two.
pub proof fn lemma_selector_union_spaced(a: Seq<char>, b: Seq<char>, doc: &Document, i: int)
    requires
        !a.contains(','),
        !b.contains(','),
        parse_spec(a) is Some,
        parse_spec(b) is Some,
    ensures
        parse_spec(a + seq![',', ' '] + b) == Some(parse_spec(a)->0 + parse_spec(b)->0),
        matches_spec(doc, i, parse_spec(a + seq![',', ' '] + b)->0) <==> matches_spec(
            doc,
            i,
            parse_spec(a)->0,
        ) || matches_spec(doc, i, parse_spec(b)->0),
{
    let b2 = seq![' '] + b;
    assert(a + seq![',', ' '] + b =~= a + seq![','] + b2);
    let (xb, yb) = lemma_trim_bounds(b);
    assert forall|k: int| 0 <= k < xb + 1 implies crate::chars::is_ws(#[trigger] b2[k]) by {
        if k > 0 {
            assert(b2[k] == b[k - 1]);
        }
    }
    assert forall|k: int| yb + 1 <= k < b2.len() implies crate::chars::is_ws(#[trigger] b2[k]) by {
        assert(b2[k] == b[k - 1]);
    }
    assert(b2[xb + 1] == b[xb] && b2[yb] == b[yb - 1]);
    lemma_trim_is(b2, xb + 1, yb + 1);
    assert(trim(b2) =~= trim(b));
    assert(!b2.contains(',')) by {
        if b2.contains(',') {
            let k = choose|k: int| 0 <= k < b2.len() && b2[k] == ',';
            assert(b[k - 1] == ',');
        }
    }
    lemma_selector_union(a, b2, doc, i);
}

// --- Laws of matching ----------------------------------------------------

/// Node `a` is `anc` or one of its ancestors (following parent links from `anc`).
pub open spec fn on_chain(doc: &Document, anc: Option<usize>, a: int) -> bool
    decreases (match anc {
        Some(x) => x as int + 1,
        None => 0int,
    }),
{
    match anc {
        None => false,
        Some(x) => {
            &&& x < doc.len()
            &&& (x == a || (match doc.node(x as int).parent {
                Some(p) => p < x && on_chain(doc, Some(p), a),
                None => false,
            }))
        },
    }
}

/// The parts `parts[0..=idx]` can be met by nodes on the chain from `anc`
/// upwards, `parts[idx]` lowest, each of the others strictly above the node
/// that meets the next part.
pub open spec fn embeds(doc: &Document, anc: Option<usize>, parts: Seq<SimpleSpec>, idx: int) -> bool
    decreases idx,
{
    exists|a: int|
        #![trigger on_chain(doc, anc, a)]
        on_chain(doc, anc, a) && simple_matches_spec(doc, a, parts[idx]) && (idx <= 0 || embeds(
            doc,
            doc.node(a).parent,
            parts,
            idx - 1,
        ))
}

proof fn lemma_on_chain_trans(doc: &Document, y: Option<usize>, a: int, b: int)
    requires
        doc.up_wf(),
        on_chain(doc, y, a),
        on_chain(doc, doc.node(a).parent, b),
    ensures
        on_chain(doc, y, b),
    decreases (match y {
        Some(x) => x as int + 1,
        None => 0int,
    }),
{
    let x = y->0;
    if x as int != a {
        let p = doc.node(x as int).parent;
        lemma_on_chain_trans(doc, p, a, b);
    } else {
        assert(doc.node(x as int).parent matches Some(p) ==> p < x);
    }
}

proof fn lemma_embeds_mono(doc: &Document, y: Option<usize>, a: int, parts: Seq<SimpleSpec>, idx: int)
    requires
        doc.up_wf(),
        on_chain(doc, y, a),
        embeds(doc, doc.node(a).parent, parts, idx),
    ensures
        embeds(doc, y, parts, idx),
{
    let z = doc.node(a).parent;
    let w = choose|w: int|
        #![trigger on_chain(doc, z, w)]
        on_chain(doc, z, w) && simple_matches_spec(doc, w, parts[idx]) && (idx <= 0 || embeds(
            doc,
            doc.node(w).parent,
            parts,
            idx - 1,
        ));
    lemma_on_chain_trans(doc, y, a, w);
}

proof fn lemma_climb_embeds(doc: &Document, anc: Option<usize>, parts: Seq<SimpleSpec>, idx: int)
    requires
        doc.up_wf(),
        0 <= idx < parts.len(),
    ensures
        climb(doc, anc, parts, idx) <==> embeds(doc, anc, parts, idx),
    decreases (match anc {
            Some(x) => x as int + 1,
            None => 0int,
        }), idx,
{
    match anc {
        None => {
            assert(!climb(doc, anc, parts, idx));
            assert(!embeds(doc, anc, parts, idx));
        },
        Some(x) => {
            if x < doc.len() {
                let up = doc.node(x as int).parent;
                assert(up matches Some(p) ==> p < x);
                if up is Some {
                    lemma_climb_embeds(doc, up, parts, idx);
                    if idx > 0 {
                        lemma_climb_embeds(doc, up, parts, idx - 1);
                    }
                }
                if simple_matches_spec(doc, x as int, parts[idx]) {
                    if idx == 0 {
                        assert(on_chain(doc, anc, x as int));
                        assert(climb(doc, anc, parts, idx));
                        assert(embeds(doc, anc, parts, idx));
                    } else {
                        if climb(doc, up, parts, idx - 1) {
                            assert(on_chain(doc, anc, x as int));
                            assert(embeds(doc, anc, parts, idx));
                        }
                        assert(climb(doc, anc, parts, idx) == climb(doc, up, parts, idx - 1));
                        if embeds(doc, anc, parts, idx) {
                            let a = choose|a: int|
                                #![trigger on_chain(doc, anc, a)]
                                on_chain(doc, anc, a) && simple_matches_spec(doc, a, parts[idx]) && (idx
                                    <= 0 || embeds(doc, doc.node(a).parent, parts, idx - 1));
                            if a != x {
                                lemma_embeds_mono(doc, up, a, parts, idx - 1);
                            }
                        }
                    }
                } else {
                    if embeds(doc, anc, parts, idx) {
                        let a = choose|a: int|
                            #![trigger on_chain(doc, anc, a)]
                            on_chain(doc, anc, a) && simple_matches_spec(doc, a, parts[idx]) && (idx <= 0
                                || embeds(doc, doc.node(a).parent, parts, idx - 1));
                        assert(on_chain(doc, up, a));
                    }
                    if embeds(doc, up, parts, idx) {
                        let a = choose|a: int|
                            #![trigger on_chain(doc, up, a)]
                            on_chain(doc, up, a) && simple_matches_spec(doc, a, parts[idx]) && (idx <= 0
                                || embeds(doc, doc.node(a).parent, parts, idx - 1));
                        assert(on_chain(doc, anc, a));
                        assert(embeds(doc, anc, parts, idx));
                    }
                    assert(climb(doc, anc, parts, idx) == climb(doc, up, parts, idx));
                    assert(climb(doc, anc, parts, idx) ==> embeds(doc, anc, parts, idx));
                    assert(embeds(doc, anc, parts, idx) ==> climb(doc, anc, parts, idx));
                }
            } else {
                assert(!climb(doc, anc, parts, idx));
                assert(!embeds(doc, anc, parts, idx));
            }
        },
    }
}

/// Descendant combinator: a chain matches a node exactly when its last part
/// matches the node and the other parts match ancestors of it, each part
/// strictly above the one after it.
pub proof fn lemma_chain_matches_ancestors(doc: &Document, i: int, parts: Seq<SimpleSpec>)
    requires
        doc.up_wf(),
        0 <= i < doc.len(),
    ensures
        chain_matches_spec(doc, i, parts) <==> (parts.len() > 0 && simple_matches_spec(
            doc,
            i,
            parts.last(),
        ) && (parts.len() == 1 || embeds(doc, doc.node(i).parent, parts, parts.len() - 2))),
{
    if parts.len() > 1 {
        lemma_climb_embeds(doc, doc.node(i).parent, parts, parts.len() - 2);
    }
}

// --- Matching: implementation --------------------------------------------

#[verifier::loop_isolation(false)]
fn simple_matches(doc: &Document, node_id: usize, sel: &SimpleSelector) -> (res: bool)
    requires
        node_id < doc.len(),
    ensures
        res == simple_matches_spec(doc, node_id as int, sel@),
{
    let node = &doc.nodes[node_id];
    assert(sel@.tag == opt_view(sel.tag));
    assert(sel@.id == opt_view(sel.id));
    assert(sel@.classes == vv(sel.classes@));
    assert(sel@.attrs == sel.attrs@.map_values(|a: AttrMatcher| a@));
    let attrs = match &node.data {
        NodeData::Element { tag, attributes } => {
            match &sel.tag {
                Some(expected) => {
                    let t = to_chars(tag.as_str());
                    if !chars_eq(&t, expected) {
                        return false;
                    }
                },
                None => {},
            }
            attributes
        },
        _ => {
            return false;
        },
    };
    match &sel.id {
        Some(expected) => {
            let id_name = to_chars("id");
            match find_attr(attrs, &id_name) {
                Some(k) => {
                    let v = to_chars(attrs[k].1.as_str());
                    if !chars_eq(&v, expected) {
                        return false;
                    }
                },
                None => {
                    return false;
                },
            }
        },
        None => {},
    }
    if sel.classes.len() > 0 {
        let class_name = to_chars("class");
        let class_str = to_chars(attr_val(attrs, &class_name).as_str());
        let class_words = split_words(&class_str);
        let mut k: usize = 0;
        while k < sel.classes.len()
            invariant
                k <= sel.classes@.len(),
                vv(class_words@) == words(attr_or_empty(attrs@, "class"@)),
                forall|j: int|
                    0 <= j < k ==> words(attr_or_empty(attrs@, "class"@)).contains(
                        #[trigger] sel@.classes[j],
                    ),
            decreases sel.classes@.len() - k,
        {
            assert(sel@.classes[k as int] == sel.classes@[k as int]@);
            if !list_contains(&class_words, &sel.classes[k]) {
                return false;
            }
            k += 1;
        }
    }
    let mut k: usize = 0;
    while k < sel.attrs.len()
        invariant
            k <= sel.attrs@.len(),
            forall|j: int| 0 <= j < k ==> attr_cond_holds(attrs@, #[trigger] sel@.attrs[j]),
        decreases sel.attrs@.len() - k,
    {
        let am = &sel.attrs[k];
        assert(sel@.attrs[k as int] == am@);
        match find_attr(attrs, &am.name) {
            None => {
                return false;
            },
            Some(idx) => {
                match &am.value {
                    Some(expected) => {
                        let actual = to_chars(attrs[idx].1.as_str());
                        if !chars_eq(&actual, expected) {
                            return false;
                        }
                    },
                    None => {},
                }
            },
        }
        k += 1;
    }
    true
}

#[verifier::loop_isolation(false)]
fn chain_matches(doc: &Document, node_id: usize, chain: &SelectorChain) -> (res: bool)
    requires
        doc.up_wf(),
        node_id < doc.len(),
    ensures
        res == chain_matches_spec(doc, node_id as int, chain@),
{
    let n = chain.parts.len();
    if n == 0 {
        return false;
    }
    assert(chain@.last() == chain.parts@[n - 1]@);
    if !simple_matches(doc, node_id, &chain.parts[n - 1]) {
        return false;
    }
    if n == 1 {
        return true;
    }
    let mut part_idx: usize = n - 2;
    let mut ancestor = doc.nodes[node_id].parent;
    assert(doc.node(node_id as int).parent == ancestor);
    loop
        invariant
            doc.up_wf(),
            n == chain@.len(),
            part_idx < n,
            ancestor matches Some(a) ==> a < doc.len(),
            climb(doc, ancestor, chain@, part_idx as int) == climb(
                doc,
                doc.node(node_id as int).parent,
                chain@,
                n - 2,
            ),
        decreases (match ancestor {
            Some(a) => a as int + 1,
            None => 0int,
        }),
    {
        match ancestor {
            None => {
                return false;
            },
            Some(anc_id) => {
                let up = doc.nodes[anc_id].parent;
                assert(doc.node(anc_id as int).parent == up);
                assert(chain@[part_idx as int] == chain.parts@[part_idx as int]@);
                if simple_matches(doc, anc_id, &chain.parts[part_idx]) {
                    if part_idx == 0 {
                        return true;
                    }
                    part_idx -= 1;
                }
                ancestor = up;
            },
        }
    }
}

impl Selector {
    /// Check if a node matches this selector.
    pub fn matches(&self, doc: &Document, node_id: usize) -> (res: bool)
        requires
            doc.up_wf(),
            node_id < doc.len(),
        ensures
            res == matches_spec(doc, node_id as int, self@),
    {
        let mut k: usize = 0;
        while k < self.alternatives.len()
            invariant
                doc.up_wf(),
                node_id < doc.len(),
                k <= self.alternatives@.len(),
                forall|j: int|
                    0 <= j < k ==> !chain_matches_spec(doc, node_id as int, #[trigger] self@[j]),
            decreases self.alternatives@.len() - k,
        {
            assert(self@[k as int] == self.alternatives@[k as int]@);
            if chain_matches(doc, node_id, &self.alternatives[k]) {
                return true;
            }
            k += 1;
        }
        false
    }
}

/// Select all nodes matching a selector, in document order.
pub fn select(doc: &Document, selector: &Selector) -> (res: Vec<usize>)
    requires
        doc.up_wf(),
    ensures
        forall|i: int| 0 <= i < doc.len() ==> (res@.contains(i as usize) <==> matches_spec(doc, i, selector@)),
        forall|a: int, b: int| 0 <= a < b < res@.len() ==> res@[a] < res@[b],
        forall|a: int| 0 <= a < res@.len() ==> res@[a] < doc.len(),
{
    let mut results: Vec<usize> = Vec::new();
    let mut i: usize = 0;
    while i < doc.nodes.len()
        invariant
            doc.up_wf(),
            i <= doc.len(),
            forall|j: int| 0 <= j < i ==> (results@.contains(j as usize) <==> matches_spec(doc, j, selector@)),
            forall|a: int, b: int| 0 <= a < b < results@.len() ==> results@[a] < results@[b],
            forall|a: int| 0 <= a < results@.len() ==> results@[a] < i,
        decreases doc.len() - i,
    {
        let id = doc.nodes[i].id;
        assert(doc.node(i as int).id == i);
        let ghost before = results@;
        let m = selector.matches(doc, id);
        if m {
            results.push(id);
        }
        proof {
            assert forall|j: int| 0 <= j <= i implies (results@.contains(j as usize) <==> matches_spec(
                doc,
                j,
                selector@,
            )) by {
                if j < i {
                    if results@.contains(j as usize) {
                        let q = choose|q: int| 0 <= q < results@.len() && results@[q] == j as usize;
                        if q < before.len() {
                            assert(before[q] == j as usize);
                        }
                    }
                    if before.contains(j as usize) {
                        let q = choose|q: int| 0 <= q < before.len() && before[q] == j as usize;
                        assert(results@[q] == j as usize);
                    }
                } else {
                    if m {
                        assert(results@[results@.len() - 1] == i);
                    } else if results@.contains(j as usize) {
                        let q = choose|q: int| 0 <= q < results@.len() && results@[q] == j as usize;
                        assert(results@[q] < i);
                    }
                }
            }
        }
        i += 1;
    }
    results
}

} // verus!
