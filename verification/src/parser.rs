//! The document model: a flat arena of nodes with parent and child indices,
//! and the HTML parser that builds it.

use vstd::prelude::*;
use vstd::utf8::is_scalar;
use crate::chars::{chars_eq, find_from, is_ws, matches_at, lower, scan_to, skip_ws, from_chars, is_whitespace, list_contains, match_at, push_all, slice_of, to_chars, to_lower, vv};

verus! {

// --- Types ---------------------------------------------------------------

/// What a node holds.
pub enum NodeData {
    /// An element, with its lowercase tag name and its attributes in source order.
    Element { tag: String, attributes: Vec<(String, String)> },
    /// A run of text.
    Text(String),
    /// A comment.
    Comment(String),
}

/// One node of the arena.
pub struct Node {
    /// The node's own index in the arena.
    pub id: usize,
    /// The index of the parent node, if any.
    pub parent: Option<usize>,
    /// The indices of the child nodes, in document order.
    pub children: Vec<usize>,
    /// What the node holds.
    pub data: NodeData,
}

/// A parsed document: node 0 is the root, the others follow in document order.
pub struct Document {
    /// All nodes, indexed by their `id`.
    pub nodes: Vec<Node>,
}

// --- Specifications ------------------------------------------------------

/// The first attribute named `name`, at or after position `k`: its value.
pub open spec fn attr_lookup_from(attrs: Seq<(String, String)>, name: Seq<char>, k: int) -> Option<
    Seq<char>,
>
    decreases attrs.len() - k,
{
    if k < 0 || k >= attrs.len() {
        None
    } else if attrs[k].0@ == name {
        Some(attrs[k].1@)
    } else {
        attr_lookup_from(attrs, name, k + 1)
    }
}

/// The value of the first attribute named `name`, if there is one.
pub open spec fn attr_lookup(attrs: Seq<(String, String)>, name: Seq<char>) -> Option<Seq<char>> {
    attr_lookup_from(attrs, name, 0)
}

/// The value of the first attribute named `name`, or the empty sequence.
pub open spec fn attr_or_empty(attrs: Seq<(String, String)>, name: Seq<char>) -> Seq<char> {
    match attr_lookup(attrs, name) {
        Some(v) => v,
        None => Seq::empty(),
    }
}

/// Every node knows its own index.
pub open spec fn ids_wf(nodes: Seq<Node>) -> bool {
    forall|i: int| 0 <= i < nodes.len() ==> (#[trigger] nodes[i]).id == i
}

/// Parent links point to earlier nodes (so following parents always ends).
pub open spec fn parents_wf(nodes: Seq<Node>) -> bool {
    forall|i: int| 0 <= i < nodes.len() ==> ((#[trigger] nodes[i]).parent matches Some(p) ==> p < i)
}

/// Child lists point to later nodes (so walking down always ends).
pub open spec fn children_wf(nodes: Seq<Node>) -> bool {
    forall|i: int, j: int|
        #![trigger nodes[i].children@[j]]
        0 <= i < nodes.len() && 0 <= j < nodes[i].children@.len() ==> {
            let c = nodes[i].children@[j] as int;
            i < c < nodes.len()
        }
}

/// The links of an arena are well formed, up and down.
pub open spec fn links_wf(nodes: Seq<Node>) -> bool {
    ids_wf(nodes) && parents_wf(nodes) && children_wf(nodes)
}

/// The arena as the parser builds it: well-formed links, a root without a
/// parent, and child lists that point to nodes naming this node as parent.
pub open spec fn arena_wf(nodes: Seq<Node>) -> bool {
    &&& nodes.len() > 0
    &&& nodes[0].parent is None
    &&& links_wf(nodes)
    &&& forall|i: int, j: int|
        #![trigger nodes[i].children@[j]]
        0 <= i < nodes.len() && 0 <= j < nodes[i].children@.len() ==> nodes[
            nodes[i].children@[j] as int].parent == Some(i as usize)
}

impl Document {
    /// The number of nodes.
    pub open spec fn len(&self) -> int {
        self.nodes@.len() as int
    }

    /// The node at index `i`.
    pub open spec fn node(&self, i: int) -> Node {
        self.nodes@[i]
    }

    /// The links are well formed (see [`links_wf`]).
    pub open spec fn wf(&self) -> bool {
        links_wf(self.nodes@)
    }

    /// Nodes know their indices and parent links are well formed: what walking
    /// up the tree needs.
    pub open spec fn up_wf(&self) -> bool {
        ids_wf(self.nodes@) && parents_wf(self.nodes@)
    }

    /// Nodes know their indices and child lists are well formed: what walking
    /// down the tree needs.
    pub open spec fn down_wf(&self) -> bool {
        ids_wf(self.nodes@) && children_wf(self.nodes@)
    }

    /// The tag of node `i`, if it is an element.
    pub open spec fn tag_of(&self, i: int) -> Option<Seq<char>> {
        match self.node(i).data {
            NodeData::Element { tag, .. } => Some(tag@),
            _ => None,
        }
    }

    /// Whether node `i` is an element with tag `t`.
    pub open spec fn is_tag(&self, i: int, t: Seq<char>) -> bool {
        self.tag_of(i) == Some(t)
    }

    /// The attributes of node `i` (empty unless it is an element).
    pub open spec fn attrs_of(&self, i: int) -> Seq<(String, String)> {
        match self.node(i).data {
            NodeData::Element { attributes, .. } => attributes@,
            _ => Seq::empty(),
        }
    }

    /// The text of node `i` and all its descendants, in document order.
    pub open spec fn text_of(&self, i: int) -> Seq<char>
        decreases self.len() - i, 1int, 0int,
    {
        if 0 <= i < self.len() {
            match self.node(i).data {
                NodeData::Text(t) => t@,
                NodeData::Comment(_) => Seq::empty(),
                NodeData::Element { .. } => self.children_text(i, self.node(i).children@.len() as int),
            }
        } else {
            Seq::empty()
        }
    }

    /// The text of the first `k` children of node `i`, in order.
    pub open spec fn children_text(&self, i: int, k: int) -> Seq<char>
        decreases self.len() - i, 0int, k,
    {
        if 0 <= i < self.len() && 0 < k <= self.node(i).children@.len() {
            let c = self.node(i).children@[k - 1] as int;
            self.children_text(i, k - 1) + if i < c < self.len() { self.text_of(c) } else { Seq::empty() }
        } else {
            Seq::empty()
        }
    }
}

// --- Views ---------------------------------------------------------------

/// What a node holds, as sequences of characters.
pub enum DataView {
    /// An element: its tag and its `(name, value)` attributes.
    Element(Seq<char>, Seq<(Seq<char>, Seq<char>)>),
    /// A run of text.
    Text(Seq<char>),
    /// A comment.
    Comment(Seq<char>),
}

/// A node: its parent, its children and what it holds.
pub struct NodeView {
    pub parent: Option<usize>,
    pub children: Seq<usize>,
    pub data: DataView,
}

/// The views of a list of attributes.
pub open spec fn attrs_view(a: Seq<(String, String)>) -> Seq<(Seq<char>, Seq<char>)> {
    a.map_values(|p: (String, String)| (p.0@, p.1@))
}

/// The view of what a node holds.
pub open spec fn data_view(d: NodeData) -> DataView {
    match d {
        NodeData::Element { tag, attributes } => DataView::Element(tag@, attrs_view(attributes@)),
        NodeData::Text(t) => DataView::Text(t@),
        NodeData::Comment(c) => DataView::Comment(c@),
    }
}

/// The view of a node.
pub open spec fn node_view(n: Node) -> NodeView {
    NodeView { parent: n.parent, children: n.children@, data: data_view(n.data) }
}

/// The views of the nodes of an arena.
pub open spec fn nodes_view(ns: Seq<Node>) -> Seq<NodeView> {
    ns.map_values(|n: Node| node_view(n))
}

impl View for Document {
    type V = Seq<NodeView>;

    open spec fn view(&self) -> Seq<NodeView> {
        nodes_view(self.nodes@)
    }
}

/// `nodes` with a new last node under `parent`, holding `data`.
pub open spec fn add_child(nodes: Seq<NodeView>, parent: usize, data: DataView) -> Seq<NodeView> {
    let id = nodes.len() as usize;
    let p = nodes[parent as int];
    nodes.push(NodeView { parent: Some(parent), children: Seq::empty(), data }).update(
        parent as int,
        NodeView { children: p.children.push(id), ..p },
    )
}

// --- Executable queries --------------------------------------------------

/// The index of the first attribute named `name`, if any.
pub fn find_attr(attrs: &Vec<(String, String)>, name: &[char]) -> (res: Option<usize>)
    ensures
        match res {
            Some(k) => k < attrs@.len() && attr_lookup(attrs@, name@) == Some(attrs@[k as int].1@),
            None => attr_lookup(attrs@, name@) is None,
        },
{
    let mut k: usize = 0;
    while k < attrs.len()
        invariant
            k <= attrs@.len(),
            attr_lookup_from(attrs@, name@, k as int) == attr_lookup(attrs@, name@),
        decreases attrs@.len() - k,
    {
        let key = to_chars(attrs[k].0.as_str());
        if chars_eq(&key, name) {
            return Some(k);
        }
        k += 1;
    }
    None
}

/// The value of the first attribute named `name`, or the empty string.
pub fn attr_val(attrs: &Vec<(String, String)>, name: &[char]) -> (res: String)
    ensures
        res@ == attr_or_empty(attrs@, name@),
{
    match find_attr(attrs, name) {
        Some(k) => attrs[k].1.clone(),
        None => String::new(),
    }
}

/// Whether some attribute is named `name`.
pub fn has_attr(attrs: &Vec<(String, String)>, name: &[char]) -> (res: bool)
    ensures
        res == (attr_lookup(attrs@, name@) is Some),
{
    find_attr(attrs, name).is_some()
}

impl Document {
    /// The text of node `id` and all its descendants.
    pub fn inner_text(&self, id: usize) -> (res: String)
        requires
            children_wf(self.nodes@),
            id < self.len(),
        ensures
            res@ == self.text_of(id as int),
    {
        let mut out: Vec<char> = Vec::new();
        self.push_text(id, &mut out);
        from_chars(&out)
    }

    /// Appends the text of node `id` to `out`.
    fn push_text(&self, id: usize, out: &mut Vec<char>)
        requires
            children_wf(self.nodes@),
            id < self.len(),
        ensures
            final(out)@ == old(out)@ + self.text_of(id as int),
        decreases self.len() - id,
    {
        let node = &self.nodes[id];
        match &node.data {
            NodeData::Text(t) => {
                let cs = to_chars(t.as_str());
                push_all(out, &cs);
            },
            NodeData::Comment(_) => {
                assert(old(out)@ + Seq::<char>::empty() =~= old(out)@);
            },
            NodeData::Element { .. } => {
                let mut k: usize = 0;
                assert(old(out)@ + Seq::<char>::empty() =~= old(out)@);
                while k < node.children.len()
                    invariant
                        children_wf(self.nodes@),
                        id < self.len(),
                        node == self.node(id as int),
                        k <= node.children@.len(),
                        out@ == old(out)@ + self.children_text(id as int, k as int),
                    decreases node.children@.len() - k,
                {
                    let c = node.children[k];
                    assert(id < c < self.len()) by {
                        assert(self.node(id as int).children@[k as int] == c);
                    }
                    self.push_text(c, out);
                    k += 1;
                    assert(out@ =~= old(out)@ + self.children_text(id as int, k as int));
                }
            },
        }
    }

    /// The tag name of node `id`, or the empty string for non-elements.
    pub fn tag_name(&self, id: usize) -> (res: &str)
        requires
            id < self.len(),
        ensures
            res@ == match self.tag_of(id as int) {
                Some(t) => t,
                None => Seq::empty(),
            },
    {
        match &self.nodes[id].data {
            NodeData::Element { tag, .. } => tag.as_str(),
            _ => {
                proof {
                    reveal_strlit("");
                }
                ""
            },
        }
    }
}

// --- Building the arena --------------------------------------------------

/// Appends a node under `parent` and returns its index.
fn add_node(nodes: &mut Vec<Node>, parent: usize, data: NodeData) -> (res: usize)
    requires
        arena_wf(old(nodes)@),
        parent < old(nodes)@.len(),
    ensures
        arena_wf(final(nodes)@),
        nodes_view(final(nodes)@) == add_child(nodes_view(old(nodes)@), parent, data_view(data)),
        final(nodes)@.len() == old(nodes)@.len() + 1,
        res == old(nodes)@.len(),
{
    let id = nodes.len();
    nodes.push(Node { id, parent: Some(parent), children: Vec::new(), data });
    let ghost mid = nodes@;
    nodes[parent].children.push(id);
    proof {
        let fin = nodes@;
        assert forall|i: int| 0 <= i < fin.len() implies (#[trigger] fin[i]).id == i by {
            assert(fin[i].id == mid[i].id);
        }
        assert forall|i: int| 0 <= i < fin.len() implies ((#[trigger] fin[i]).parent matches Some(p) ==> p < i) by {
            assert(fin[i].parent == mid[i].parent);
        }
        assert forall|i: int, j: int|
            #![trigger fin[i].children@[j]]
            0 <= i < fin.len() && 0 <= j < fin[i].children@.len() implies {
                let c = fin[i].children@[j] as int;
                &&& i < c < fin.len()
                &&& fin[c].parent == Some(i as usize)
            } by {
            if i == parent {
                if j < mid[i].children@.len() {
                    assert(fin[i].children@[j] == mid[i].children@[j]);
                    assert(old(nodes)@[i].children@[j] == mid[i].children@[j]);
                }
            } else {
                assert(fin[i].children@ == mid[i].children@);
                if i < old(nodes)@.len() {
                    assert(old(nodes)@[i].children@[j] == mid[i].children@[j]);
                }
            }
        }
        let want = add_child(nodes_view(old(nodes)@), parent, data_view(data));
        assert forall|i: int| 0 <= i < fin.len() implies #[trigger] nodes_view(fin)[i] == want[i] by {
            if i == parent {
                assert(fin[i].children@ =~= old(nodes)@[i].children@.push(id));
            } else if i < old(nodes)@.len() {
                assert(fin[i] == old(nodes)@[i]);
            }
        }
        assert(nodes_view(fin) =~= want);
    }
    id
}

// --- Parsing -------------------------------------------------------------

/// `char::from_u32`: the character with code point `v`, if `v` is a Unicode
/// scalar value. The contract claims what the function documents: it succeeds
/// exactly for scalar values, and the character's code point is `v`.
#[verifier::external_body]
fn char_of_code(v: u32) -> (res: Option<char>)
    ensures
        res is Some <==> vstd::utf8::is_scalar(v),
        res matches Some(c) ==> c as u32 == v,
{
    char::from_u32(v)
}

/// Whether `c` is an ASCII letter.
pub open spec fn is_alpha(c: char) -> bool {
    ('a' <= c && c <= 'z') || ('A' <= c && c <= 'Z')
}

fn is_ascii_alpha(c: char) -> (res: bool)
    ensures
        res == is_alpha(c),
{
    ('a' <= c && c <= 'z') || ('A' <= c && c <= 'Z')
}

/// The value of a hexadecimal digit.
pub open spec fn hex_digit(c: char) -> Option<u32> {
    if '0' <= c && c <= '9' {
        Some((c as u32 - '0' as u32) as u32)
    } else if 'a' <= c && c <= 'f' {
        Some((c as u32 - 'a' as u32 + 10) as u32)
    } else if 'A' <= c && c <= 'F' {
        Some((c as u32 - 'A' as u32 + 10) as u32)
    } else {
        None
    }
}

fn hex_value(c: char) -> (res: Option<u32>)
    ensures
        res == hex_digit(c),
        res matches Some(v) ==> v < 16,
{
    if '0' <= c && c <= '9' {
        Some((c as u32) - ('0' as u32))
    } else if 'a' <= c && c <= 'f' {
        Some((c as u32) - ('a' as u32) + 10)
    } else if 'A' <= c && c <= 'F' {
        Some((c as u32) - ('A' as u32) + 10)
    } else {
        None
    }
}

/// The number written with the digits of `name` from index `k` on in `base`,
/// continuing from the value `v` of the digits before; `None` when a character is
/// not a digit of the base or the number reaches `0x110000`.
pub open spec fn digits_value(name: Seq<char>, base: u32, k: int, v: int) -> Option<int>
    decreases name.len() - k,
{
    if k < 0 || k >= name.len() {
        Some(v)
    } else {
        match hex_digit(name[k]) {
            None => None,
            Some(d) => {
                if d >= base || v * base + d >= 0x110000 {
                    None
                } else {
                    digits_value(name, base, k + 1, v * base + d)
                }
            },
        }
    }
}

/// The character a numeric reference (`#65` or `#x41`) stands for.
pub open spec fn numeric_char(name: Seq<char>) -> Option<char> {
    if name.len() < 2 || name[0] != '#' {
        None
    } else {
        let hex = name[1] == 'x' || name[1] == 'X';
        let start: int = if hex { 2 } else { 1 };
        if start >= name.len() {
            None
        } else {
            match digits_value(name, if hex { 16 } else { 10 }, start, 0) {
                Some(v) => if is_scalar(v as u32) { Some((v as u32) as char) } else { None },
                None => None,
            }
        }
    }
}

/// The character a reference name (`amp`, `lt`, `gt`, `quot`, `apos`, `nbsp`, or
/// a numeric reference) stands for.
pub open spec fn named_char(name: Seq<char>) -> Option<char> {
    if name == "amp"@ {
        Some('&')
    } else if name == "lt"@ {
        Some('<')
    } else if name == "gt"@ {
        Some('>')
    } else if name == "quot"@ {
        Some('"')
    } else if name == "apos"@ {
        Some('\'')
    } else if name == "nbsp"@ {
        Some('\u{A0}')
    } else {
        numeric_char(name)
    }
}

/// The character reference at `s[i]` (which is `&`): the character and the index
/// after the `;`. The name runs to the first `;` and has at most 11 characters.
pub open spec fn reference_at(s: Seq<char>, i: int) -> Option<(char, int)> {
    let semi = scan_to(s, i + 1, ';');
    if semi >= s.len() || semi - i > 12 {
        None
    } else {
        match named_char(s.subrange(i + 1, semi)) {
            Some(c) => Some((c, semi + 1)),
            None => None,
        }
    }
}

/// `s` from index `i` on, with its character references replaced by the
/// characters they stand for; an `&` that starts no reference stays as it is.
pub open spec fn decode_from(s: Seq<char>, i: int) -> Seq<char>
    decreases s.len() - i,
{
    if i < 0 || i >= s.len() {
        Seq::empty()
    } else {
        match if s[i] == '&' { reference_at(s, i) } else { None } {
            Some((c, next)) => if i < next <= s.len() {
                seq![c] + decode_from(s, next)
            } else {
                Seq::empty()
            },
            None => seq![s[i]] + decode_from(s, i + 1),
        }
    }
}

/// `s` with its character references replaced by the characters they stand for.
pub open spec fn decode(s: Seq<char>) -> Seq<char> {
    decode_from(s, 0)
}

proof fn lemma_char_of_code(c: char, v: u32)
    requires
        c as u32 == v,
    ensures
        c == (v as char),
{
}

/// The character a numeric reference (`#65` or `#x41`) stands for.
fn numeric_entity(name: &[char]) -> (res: Option<char>)
    ensures
        res == numeric_char(name@),
{
    if name.len() < 2 || name[0] != '#' {
        return None;
    }
    let hex = name[1] == 'x' || name[1] == 'X';
    let start: usize = if hex { 2 } else { 1 };
    if start >= name.len() {
        return None;
    }
    let base: u32 = if hex { 16 } else { 10 };
    let mut v: u32 = 0;
    let mut k = start;
    while k < name.len()
        invariant
            start <= k <= name@.len(),
            v < 0x110000,
            base == 10 || base == 16,
            digits_value(name@, base, start as int, 0) == digits_value(name@, base, k as int, v as int),
            numeric_char(name@) == match digits_value(name@, base, start as int, 0) {
                Some(x) => if is_scalar(x as u32) {
                    Some((x as u32) as char)
                } else {
                    None
                },
                None => None,
            },
        decreases name@.len() - k,
    {
        let d = match hex_value(name[k]) {
            Some(d) => d,
            None => {
                return None;
            },
        };
        if d >= base {
            return None;
        }
        assert(v * base + d < 0x110000 * 16 + 16) by (nonlinear_arith)
            requires
                v < 0x110000,
                base <= 16,
                d < 16,
        ;
        let next = v * base + d;
        if next >= 0x110000 {
            return None;
        }
        v = next;
        k += 1;
    }
    let r = char_of_code(v);
    proof {
        if let Some(c) = r {
            lemma_char_of_code(c, v);
        }
    }
    r
}

/// The character reference at `s[i]` (which is `&`), and the index after it.
fn entity_at(s: &[char], i: usize) -> (res: Option<(char, usize)>)
    requires
        i < s@.len(),
    ensures
        match res {
            Some((c, next)) => reference_at(s@, i as int) == Some((c, next as int)),
            None => reference_at(s@, i as int) is None,
        },
        res matches Some((_, next)) ==> i < next <= s@.len(),
{
    let len = s.len();
    let semi = crate::chars::index_of(s, i + 1, ';');
    proof {
        crate::chars::lemma_scan_to_bounds(s@, i + 1, ';');
    }
    if semi >= len || semi - i > 12 {
        return None;
    }
    let name = slice_of(s, i + 1, semi);
    let c = if chars_eq(&name, &to_chars("amp")) {
        '&'
    } else if chars_eq(&name, &to_chars("lt")) {
        '<'
    } else if chars_eq(&name, &to_chars("gt")) {
        '>'
    } else if chars_eq(&name, &to_chars("quot")) {
        '"'
    } else if chars_eq(&name, &to_chars("apos")) {
        '\''
    } else if chars_eq(&name, &to_chars("nbsp")) {
        '\u{A0}'
    } else {
        match numeric_entity(&name) {
            Some(c) => c,
            None => {
                return None;
            },
        }
    };
    Some((c, semi + 1))
}

/// Text with its character references replaced by the characters they stand for.
fn decode_entities(s: &[char]) -> (res: Vec<char>)
    ensures
        res@ == decode(s@),
{
    let mut out: Vec<char> = Vec::new();
    let mut i: usize = 0;
    assert(out@ + decode_from(s@, 0) =~= decode(s@));
    while i < s.len()
        invariant
            i <= s@.len(),
            out@ + decode_from(s@, i as int) == decode(s@),
        decreases s@.len() - i,
    {
        if s[i] == '&' {
            if let Some((c, next)) = entity_at(s, i) {
                assert(out@.push(c) + decode_from(s@, next as int) =~= out@ + decode_from(s@, i as int));
                out.push(c);
                i = next;
                continue;
            }
        }
        assert(out@.push(s@[i as int]) + decode_from(s@, i + 1) =~= out@ + decode_from(s@, i as int));
        out.push(s[i]);
        i += 1;
    }
    assert(out@ + decode_from(s@, i as int) =~= out@);
    out
}

/// First index at or after `i` holding whitespace or one of `stops` (or the length).
pub open spec fn scan_stop(s: Seq<char>, i: int, stops: Seq<char>) -> int
    decreases s.len() - i,
{
    if 0 <= i < s.len() && !is_ws(s[i]) && !stops.contains(s[i]) {
        scan_stop(s, i + 1, stops)
    } else {
        i
    }
}

proof fn lemma_scan_stop_bounds(s: Seq<char>, i: int, stops: Seq<char>)
    requires
        0 <= i <= s.len(),
    ensures
        i <= scan_stop(s, i, stops) <= s.len(),
    decreases s.len() - i,
{
    if i < s.len() && !is_ws(s[i]) && !stops.contains(s[i]) {
        lemma_scan_stop_bounds(s, i + 1, stops);
    }
}

fn scan_until(s: &[char], i: usize, stops: &[char]) -> (res: usize)
    requires
        i <= s@.len(),
    ensures
        res == scan_stop(s@, i as int, stops@),
        i <= res <= s@.len(),
{
    proof {
        lemma_scan_stop_bounds(s@, i as int, stops@);
    }
    let mut k = i;
    while k < s.len() && !is_whitespace(s[k]) && !stops_at(stops, s[k])
        invariant
            i <= k <= s@.len(),
            scan_stop(s@, i as int, stops@) == scan_stop(s@, k as int, stops@),
        decreases s@.len() - k,
    {
        k += 1;
    }
    k
}

fn stops_at(stops: &[char], c: char) -> (res: bool)
    ensures
        res == stops@.contains(c),
{
    let mut k: usize = 0;
    while k < stops.len()
        invariant
            k <= stops@.len(),
            forall|j: int| 0 <= j < k ==> stops@[j] != c,
        decreases stops@.len() - k,
    {
        if stops[k] == c {
            return true;
        }
        k += 1;
    }
    false
}

fn skip_space(s: &[char], i: usize) -> (res: usize)
    requires
        i <= s@.len(),
    ensures
        res == skip_ws(s@, i as int),
        i <= res <= s@.len(),
{
    proof {
        crate::chars::lemma_skip_ws_bounds(s@, i as int);
    }
    crate::chars::skip_spaces(s, i)
}

/// The value of an attribute whose name is followed, after spaces, by index `k`:
/// after `=`, a quoted value runs to the matching quote, an unquoted one to
/// whitespace or `>`; without `=` the value is empty. Also the index after it.
pub open spec fn attr_value(s: Seq<char>, k: int) -> (Seq<char>, int) {
    if k < s.len() && s[k] == '=' {
        let v = skip_ws(s, k + 1);
        if v < s.len() && (s[v] == '"' || s[v] == '\'') {
            let close = scan_to(s, v + 1, s[v]);
            (decode(s.subrange(v + 1, close)), if close < s.len() { close + 1 } else { close })
        } else {
            let end = scan_stop(s, v, seq!['>']);
            (decode(s.subrange(v, end)), end)
        }
    } else {
        (Seq::empty(), k)
    }
}

/// The attributes of a start tag from index `k` on, whether the tag closes
/// itself (`/>`), and the index after the tag (or the length).
pub open spec fn attrs_from(s: Seq<char>, k: int) -> (Seq<(Seq<char>, Seq<char>)>, bool, int)
    decreases s.len() - k,
{
    if k < 0 || k >= s.len() {
        (Seq::empty(), false, k)
    } else {
        let a = skip_ws(s, k);
        if a < k || a >= s.len() {
            (Seq::empty(), false, a)
        } else if s[a] == '>' {
            (Seq::empty(), false, a + 1)
        } else if s[a] == '/' {
            if a + 1 < s.len() && s[a + 1] == '>' {
                (Seq::empty(), true, a + 2)
            } else {
                attrs_from(s, a + 1)
            }
        } else {
            let e = scan_stop(s, a, seq!['=', '>', '/']);
            if e <= a {
                attrs_from(s, a + 1)
            } else {
                let name = lower(s.subrange(a, e));
                let (value, next) = attr_value(s, skip_ws(s, e));
                if k < next <= s.len() {
                    let rest = attrs_from(s, next);
                    (seq![(name, value)] + rest.0, rest.1, rest.2)
                } else {
                    (Seq::empty(), false, k)
                }
            }
        }
    }
}

/// The start tag at `s[i]` (which is `<`): its lowercase name (up to whitespace,
/// `/` or `>`), its attributes, whether it closes itself, and the index after it.
pub open spec fn start_tag(s: Seq<char>, i: int) -> (Seq<char>, Seq<(Seq<char>, Seq<char>)>, bool, int) {
    let name_end = scan_stop(s, i + 1, seq!['/', '>']);
    let rest = attrs_from(s, name_end);
    (lower(s.subrange(i + 1, name_end)), rest.0, rest.1, rest.2)
}

/// A start tag read from `s[i]` (which is `<`): its lowercase name, its
/// attributes, whether it closes itself, and the index after it.
fn read_start_tag(s: &[char], i: usize) -> (res: (Vec<char>, Vec<(String, String)>, bool, usize))
    requires
        i < s@.len(),
    ensures
        (res.0@, attrs_view(res.1@), res.2, res.3 as int) == start_tag(s@, i as int),
        i < res.3 <= s@.len(),
{
    let len = s.len();
    let name_end = scan_until(s, i + 1, &['/', '>']);
    let name = to_lower(&slice_of(s, i + 1, name_end));
    let mut attributes: Vec<(String, String)> = Vec::new();
    let mut self_closing = false;
    let mut k = name_end;
    let ghost total = attrs_from(s@, name_end as int);
    assert(attrs_view(attributes@) + total.0 =~= total.0);
    loop
        invariant_except_break
            attrs_view(attributes@) + attrs_from(s@, k as int).0 == total.0,
            attrs_from(s@, k as int).1 == total.1,
            attrs_from(s@, k as int).2 == total.2,
            !self_closing,
        invariant
            i < k <= s@.len(),
            len == s@.len(),
            total == attrs_from(s@, name_end as int),
        ensures
            attrs_view(attributes@) == total.0,
            self_closing == total.1,
            k == total.2,
            i < k <= s@.len(),
        decreases s@.len() - k,
    {
        if k >= s.len() {
            assert(attrs_view(attributes@) + Seq::empty() =~= attrs_view(attributes@));
            break;
        }
        let a = skip_space(s, k);
        if a >= s.len() {
            assert(attrs_view(attributes@) + Seq::empty() =~= attrs_view(attributes@));
            k = a;
            break;
        }
        if s[a] == '>' {
            assert(attrs_view(attributes@) + Seq::empty() =~= attrs_view(attributes@));
            k = a + 1;
            break;
        }
        if s[a] == '/' {
            if a + 1 < s.len() && s[a + 1] == '>' {
                assert(attrs_view(attributes@) + Seq::empty() =~= attrs_view(attributes@));
                self_closing = true;
                k = a + 2;
                break;
            }
            k = a + 1;
            continue;
        }
        let attr_end = scan_until(s, a, &['=', '>', '/']);
        if attr_end == a {
            k = a + 1;
            continue;
        }
        let attr_name = to_lower(&slice_of(s, a, attr_end));
        let eq = skip_space(s, attr_end);
        let mut v = eq;
        let mut value: Vec<char> = Vec::new();
        if eq < len && s[eq] == '=' {
            let q = skip_space(s, eq + 1);
            if q < len && (s[q] == '"' || s[q] == '\'') {
                let quote = s[q];
                let close = crate::chars::index_of(s, q + 1, quote);
                proof {
                    crate::chars::lemma_scan_to_bounds(s@, q + 1, quote);
                }
                value = decode_entities(&slice_of(s, q + 1, close));
                v = if close < len {
                    close + 1
                } else {
                    close
                };
            } else {
                let stops = ['>'];
                assert(stops@ =~= seq!['>']);
                let value_end = scan_until(s, q, &stops);
                value = decode_entities(&slice_of(s, q, value_end));
                v = value_end;
            }
        } else {
            assert(value@ =~= Seq::<char>::empty());
        }
        let ghost before = attrs_view(attributes@);
        let ghost pair = (attr_name@, value@);
        assert(attr_value(s@, skip_ws(s@, attr_end as int)) == (value@, v as int));
        assert(k < v <= len);
        assert(attrs_from(s@, k as int) == (seq![pair] + attrs_from(s@, v as int).0, attrs_from(s@, v as int).1, attrs_from(s@, v as int).2));
        attributes.push((from_chars(&attr_name), from_chars(&value)));
        assert(attrs_view(attributes@) =~= before.push(pair));
        assert(before.push(pair) + attrs_from(s@, v as int).0 =~= before + (seq![pair] + attrs_from(s@, v as int).0));
        k = v;
    }
    (name, attributes, self_closing, k)
}

/// The void elements: they never have children.
pub open spec fn void_tags() -> Seq<Seq<char>> {
    seq![
        "area"@, "base"@, "br"@, "col"@, "embed"@, "hr"@, "img"@, "input"@, "link"@, "meta"@,
        "param"@, "source"@, "track"@, "wbr"@,
    ]
}

fn void_list() -> (res: Vec<Vec<char>>)
    ensures
        vv(res@) == void_tags(),
{
    let mut v: Vec<Vec<char>> = Vec::new();
    v.push(to_chars("area"));
    v.push(to_chars("base"));
    v.push(to_chars("br"));
    v.push(to_chars("col"));
    v.push(to_chars("embed"));
    v.push(to_chars("hr"));
    v.push(to_chars("img"));
    v.push(to_chars("input"));
    v.push(to_chars("link"));
    v.push(to_chars("meta"));
    v.push(to_chars("param"));
    v.push(to_chars("source"));
    v.push(to_chars("track"));
    v.push(to_chars("wbr"));
    assert(vv(v@) =~= void_tags());
    v
}

/// A tree being built: its nodes, the elements that are open from the root
/// down, and their tags (the root's is empty).
pub struct TreeView {
    pub nodes: Seq<NodeView>,
    pub open: Seq<usize>,
    pub tags: Seq<Seq<char>>,
}

/// The tree before any input: the root alone, open.
pub open spec fn root_tree() -> TreeView {
    TreeView {
        nodes: seq![
            NodeView {
                parent: None,
                children: Seq::empty(),
                data: DataView::Element("#document"@, Seq::empty()),
            },
        ],
        open: seq![0usize],
        tags: seq![Seq::empty()],
    }
}

/// The index after the first `>` at or after `i` (or the length).
pub open spec fn after_gt(s: Seq<char>, i: int) -> int {
    let c = scan_to(s, i, '>');
    if c < s.len() {
        c + 1
    } else {
        s.len() as int
    }
}

/// The innermost open element, at or below position `k`, with tag `name`;
/// 0 when there is none (the root is never closed).
pub open spec fn close_at(tags: Seq<Seq<char>>, name: Seq<char>, k: int) -> int
    decreases k,
{
    if k < 1 {
        0
    } else if tags[k] == name {
        k
    } else {
        close_at(tags, name, k - 1)
    }
}

/// `<!--` at `i`: a comment up to `-->` (or the end).
pub open spec fn comment_step(cs: Seq<char>, t: TreeView, i: int) -> (TreeView, int) {
    let (end, next) = match find_from(cs, "-->"@, i + 4) {
        Some(c) => (c, c + 3),
        None => (cs.len() as int, cs.len() as int),
    };
    (
        TreeView {
            nodes: add_child(t.nodes, t.open.last(), DataView::Comment(cs.subrange(i + 4, end))),
            ..t
        },
        next,
    )
}

/// `</` at `i`: an end tag closes the innermost open element with its name and
/// every element opened inside it; with no such element it is ignored.
pub open spec fn end_tag_step(cs: Seq<char>, t: TreeView, i: int) -> (TreeView, int) {
    let name_end = scan_stop(cs, i + 2, seq!['>']);
    let name = lower(cs.subrange(i + 2, name_end));
    let k = close_at(t.tags, name, t.tags.len() - 1);
    (
        if k >= 1 {
            TreeView { open: t.open.take(k), tags: t.tags.take(k), ..t }
        } else {
            t
        },
        after_gt(cs, name_end),
    )
}

/// `<!` or `<?` at `i`: a declaration or processing instruction, skipped.
pub open spec fn skip_step(cs: Seq<char>, t: TreeView, i: int) -> (TreeView, int) {
    (t, after_gt(cs, i + 1))
}

/// Whether an element with this tag holds its content as text.
pub open spec fn is_text_tag(tag: Seq<char>) -> bool {
    tag == "script"@ || tag == "style"@ || tag == "textarea"@ || tag == "title"@
}

/// A start tag at `i`: a new element under the innermost open one. Void and
/// self-closing elements stay empty; `script`, `style`, `textarea` and `title`
/// take everything up to their end tag as one text node (decoded for
/// `textarea` and `title`); other elements are opened.
pub open spec fn element_step(cs: Seq<char>, t: TreeView, i: int) -> (TreeView, int) {
    let (tag, attrs, self_closing, next) = start_tag(cs, i);
    let id = t.nodes.len() as usize;
    let nodes = add_child(t.nodes, t.open.last(), DataView::Element(tag, attrs));
    if self_closing || void_tags().contains(tag) {
        (TreeView { nodes, ..t }, next)
    } else if is_text_tag(tag) {
        let end = match find_from(lower(cs), seq!['<', '/'] + tag, next) {
            Some(e) => e,
            None => cs.len() as int,
        };
        let raw = cs.subrange(next, end);
        let content = if tag == "script"@ || tag == "style"@ {
            raw
        } else {
            decode(raw)
        };
        (
            TreeView {
                nodes: if content.len() > 0 {
                    add_child(nodes, id, DataView::Text(content))
                } else {
                    nodes
                },
                ..t
            },
            after_gt(cs, end),
        )
    } else {
        (TreeView { nodes, open: t.open.push(id), tags: t.tags.push(tag) }, next)
    }
}

/// Text at `i`, up to the next `<`: a decoded text node, unless it is empty.
pub open spec fn text_step(cs: Seq<char>, t: TreeView, i: int) -> (TreeView, int) {
    let j = scan_to(cs, i + 1, '<');
    let text = decode(cs.subrange(i, j));
    (
        TreeView {
            nodes: if text.len() > 0 {
                add_child(t.nodes, t.open.last(), DataView::Text(text))
            } else {
                t.nodes
            },
            ..t
        },
        j,
    )
}

/// What the input at `i` does to the tree, and where the next piece starts.
pub open spec fn step(cs: Seq<char>, t: TreeView, i: int) -> (TreeView, int) {
    if cs[i] == '<' && matches_at(cs, "<!--"@, i) {
        comment_step(cs, t, i)
    } else if cs[i] == '<' && i + 1 < cs.len() && cs[i + 1] == '/' {
        end_tag_step(cs, t, i)
    } else if cs[i] == '<' && i + 1 < cs.len() && (cs[i + 1] == '!' || cs[i + 1] == '?') {
        skip_step(cs, t, i)
    } else if cs[i] == '<' && i + 1 < cs.len() && is_alpha(cs[i + 1]) {
        element_step(cs, t, i)
    } else {
        text_step(cs, t, i)
    }
}

/// The tree built from the input from index `i` on, starting from `t`.
pub open spec fn build(cs: Seq<char>, t: TreeView, i: int) -> TreeView
    decreases cs.len() - i,
{
    if 0 <= i < cs.len() {
        let (t2, next) = step(cs, t, i);
        if i < next <= cs.len() {
            build(cs, t2, next)
        } else {
            t2
        }
    } else {
        t
    }
}

/// The nodes of the document parsed from `html`.
pub open spec fn parse_tree(html: Seq<char>) -> Seq<NodeView> {
    build(html, root_tree(), 0).nodes
}

// --- Laws of the parser --------------------------------------------------

/// Whether the names in `d` (an element's tag and attribute names) are in lowercase.
pub open spec fn names_lowercase(d: DataView) -> bool {
    match d {
        DataView::Element(tag, attrs) => lower(tag) == tag && forall|k: int|
            0 <= k < attrs.len() ==> lower(#[trigger] attrs[k].0) == attrs[k].0,
        _ => true,
    }
}

/// The root of `nodes`: an element `#document` with no attributes and no parent.
pub open spec fn root_first(nodes: Seq<NodeView>) -> bool {
    &&& nodes.len() >= 1
    &&& nodes[0].parent is None
    &&& nodes[0].data == DataView::Element("#document"@, Seq::empty())
}

/// A tree being built keeps its root first, its names in lowercase, and one tag
/// for each open element, which is one of its nodes.
spec fn tree_ok(t: TreeView) -> bool {
    &&& root_first(t.nodes)
    &&& forall|i: int| 0 <= i < t.nodes.len() ==> names_lowercase(#[trigger] t.nodes[i].data)
    &&& t.open.len() >= 1
    &&& t.open.len() == t.tags.len()
    &&& forall|k: int| 0 <= k < t.open.len() ==> #[trigger] t.open[k] < t.nodes.len()
}

proof fn lemma_lower_idempotent(s: Seq<char>)
    ensures
        lower(lower(s)) == lower(s),
{
    assert(lower(lower(s)) =~= lower(s));
}

proof fn lemma_attr_names_lowercase(s: Seq<char>, k: int)
    ensures
        forall|j: int|
            0 <= j < attrs_from(s, k).0.len() ==> lower(#[trigger] attrs_from(s, k).0[j].0)
                == attrs_from(s, k).0[j].0,
    decreases s.len() - k,
{
    if 0 <= k < s.len() {
        let a = skip_ws(s, k);
        if a >= k && a < s.len() && s[a] != '>' {
            if s[a] == '/' {
                if !(a + 1 < s.len() && s[a + 1] == '>') {
                    lemma_attr_names_lowercase(s, a + 1);
                    assert(attrs_from(s, k) == attrs_from(s, a + 1));
                }
            } else {
                let e = scan_stop(s, a, seq!['=', '>', '/']);
                if e <= a {
                    lemma_attr_names_lowercase(s, a + 1);
                    assert(attrs_from(s, k) == attrs_from(s, a + 1));
                } else {
                    let name = lower(s.subrange(a, e));
                    let (value, next) = attr_value(s, skip_ws(s, e));
                    if k < next <= s.len() {
                        lemma_attr_names_lowercase(s, next);
                        lemma_lower_idempotent(s.subrange(a, e));
                        let rest = attrs_from(s, next).0;
                        assert(attrs_from(s, k).0 == seq![(name, value)] + rest);
                        assert forall|j: int| 0 <= j < attrs_from(s, k).0.len() implies lower(
                            #[trigger] attrs_from(s, k).0[j].0,
                        ) == attrs_from(s, k).0[j].0 by {
                            if j > 0 {
                                assert(attrs_from(s, k).0[j] == rest[j - 1]);
                            }
                        }
                    }
                }
            }
        }
    }
}

proof fn lemma_add_child_ok(t: TreeView, parent: usize, d: DataView)
    requires
        tree_ok(t),
        parent < t.nodes.len(),
        names_lowercase(d),
    ensures
        tree_ok(TreeView { nodes: add_child(t.nodes, parent, d), ..t }),
        add_child(t.nodes, parent, d).len() == t.nodes.len() + 1,
{
    let nodes = add_child(t.nodes, parent, d);
    assert forall|i: int| 0 <= i < nodes.len() implies names_lowercase(#[trigger] nodes[i].data) by {
        if i < t.nodes.len() {
            assert(nodes[i].data == t.nodes[i].data);
        }
    }
    assert(nodes[0].data == t.nodes[0].data);
}

proof fn lemma_close_at_bounds(tags: Seq<Seq<char>>, name: Seq<char>, k: int)
    requires
        0 <= k,
    ensures
        0 <= close_at(tags, name, k) <= k,
    decreases k,
{
    if k >= 1 && tags[k] != name {
        lemma_close_at_bounds(tags, name, k - 1);
    }
}

proof fn lemma_step_ok(cs: Seq<char>, t: TreeView, i: int)
    requires
        tree_ok(t),
        0 <= i < cs.len(),
    ensures
        tree_ok(step(cs, t, i).0),
{
    let parent = t.open.last();
    assert(parent < t.nodes.len()) by {
        assert(t.open[t.open.len() - 1] < t.nodes.len());
    }
    if cs[i] == '<' && matches_at(cs, "<!--"@, i) {
        let (end, next) = match find_from(cs, "-->"@, i + 4) {
            Some(c) => (c, c + 3),
            None => (cs.len() as int, cs.len() as int),
        };
        lemma_add_child_ok(t, parent, DataView::Comment(cs.subrange(i + 4, end)));
    } else if cs[i] == '<' && i + 1 < cs.len() && cs[i + 1] == '/' {
        let name_end = scan_stop(cs, i + 2, seq!['>']);
        let name = lower(cs.subrange(i + 2, name_end));
        lemma_close_at_bounds(t.tags, name, t.tags.len() - 1);
    } else if cs[i] == '<' && i + 1 < cs.len() && (cs[i + 1] == '!' || cs[i + 1] == '?') {
    } else if cs[i] == '<' && i + 1 < cs.len() && is_alpha(cs[i + 1]) {
        let (tag, attrs, self_closing, next) = start_tag(cs, i);
        let name_end = scan_stop(cs, i + 1, seq!['/', '>']);
        lemma_lower_idempotent(cs.subrange(i + 1, name_end));
        lemma_attr_names_lowercase(cs, name_end);
        let el = DataView::Element(tag, attrs);
        lemma_add_child_ok(t, parent, el);
        let t1 = TreeView { nodes: add_child(t.nodes, parent, el), ..t };
        let id = t.nodes.len() as usize;
        if !(self_closing || void_tags().contains(tag)) && is_text_tag(tag) {
            let end = match find_from(lower(cs), seq!['<', '/'] + tag, next) {
                Some(e) => e,
                None => cs.len() as int,
            };
            let raw = cs.subrange(next, end);
            let content = if tag == "script"@ || tag == "style"@ {
                raw
            } else {
                decode(raw)
            };
            if content.len() > 0 {
                lemma_add_child_ok(t1, id, DataView::Text(content));
            }
        } else if !(self_closing || void_tags().contains(tag)) {
            let t2 = TreeView { open: t1.open.push(id), tags: t1.tags.push(tag), ..t1 };
            assert forall|k: int| 0 <= k < t2.open.len() implies #[trigger] t2.open[k] < t2.nodes.len() by {
                if k < t.open.len() {
                    assert(t2.open[k] == t.open[k]);
                }
            }
        }
    } else {
        let j = scan_to(cs, i + 1, '<');
        let text = decode(cs.subrange(i, j));
        if text.len() > 0 {
            lemma_add_child_ok(t, parent, DataView::Text(text));
        }
    }
}

proof fn lemma_build_ok(cs: Seq<char>, t: TreeView, i: int)
    requires
        tree_ok(t),
    ensures
        tree_ok(build(cs, t, i)),
    decreases cs.len() - i,
{
    if 0 <= i < cs.len() {
        lemma_step_ok(cs, t, i);
        let (t2, next) = step(cs, t, i);
        if i < next <= cs.len() {
            lemma_build_ok(cs, t2, next);
        }
    }
}

/// A parsed document starts with its root, an element `#document` with no
/// attributes and no parent, and every tag and attribute name in it is in
/// lowercase.
pub proof fn lemma_parse_shape(html: Seq<char>)
    ensures
        root_first(parse_tree(html)),
        forall|i: int|
            0 <= i < parse_tree(html).len() ==> names_lowercase(#[trigger] parse_tree(html)[i].data),
{
    let t = root_tree();
    assert(lower("#document"@) == "#document"@) by {
        reveal_strlit("#document");
        assert(lower("#document"@) =~= "#document"@);
    }
    assert(tree_ok(t));
    lemma_build_ok(html, t, 0);
}

/// The arena of a document being built, with its open elements.
struct TreeBuilder {
    nodes: Vec<Node>,
    open: Vec<usize>,
    tags: Vec<Vec<char>>,
}

impl View for TreeBuilder {
    type V = TreeView;

    closed spec fn view(&self) -> TreeView {
        TreeView { nodes: nodes_view(self.nodes@), open: self.open@, tags: vv(self.tags@) }
    }
}

impl TreeBuilder {
    spec fn inv(&self) -> bool {
        &&& arena_wf(self.nodes@)
        &&& self.open@.len() >= 1
        &&& self.open@.len() == self.tags@.len()
        &&& forall|k: int| 0 <= k < self.open@.len() ==> #[trigger] self.open@[k] < self.nodes@.len()
    }

    fn new() -> (res: Self)
        ensures
            res.inv(),
            res@ == root_tree(),
    {
        let mut nodes: Vec<Node> = Vec::new();
        nodes.push(
            Node {
                id: 0,
                parent: None,
                children: Vec::new(),
                data: NodeData::Element { tag: "#document".to_owned(), attributes: Vec::new() },
            },
        );
        let mut open: Vec<usize> = Vec::new();
        open.push(0);
        let mut tags: Vec<Vec<char>> = Vec::new();
        tags.push(Vec::new());
        let res = TreeBuilder { nodes, open, tags };
        assert(attrs_view(Seq::<(String, String)>::empty()) =~= Seq::empty());
        assert(res@.nodes =~= root_tree().nodes);
        assert(res@.tags =~= root_tree().tags);
        res
    }

    fn parent(&self) -> (res: usize)
        requires
            self.inv(),
        ensures
            res == self@.open.last(),
            res < self.nodes@.len(),
    {
        self.open[self.open.len() - 1]
    }

    fn comment(&mut self, cs: &[char], i: usize) -> (res: usize)
        requires
            old(self).inv(),
            matches_at(cs@, "<!--"@, i as int),
        ensures
            final(self).inv(),
            (final(self)@, res as int) == comment_step(cs@, old(self)@, i as int),
            i < res <= cs@.len(),
    {
        proof {
            reveal_strlit("<!--");
            reveal_strlit("-->");
        }
        let n = cs.len();
        let close = crate::chars::find(cs, &to_chars("-->"), i + 4);
        proof {
            crate::chars::lemma_find_from_bounds(cs@, "-->"@, i + 4);
        }
        let (end, next) = match close {
            Some(c) => (c, c + 3),
            None => (n, n),
        };
        let content = slice_of(cs, i + 4, end);
        let parent = self.parent();
        add_node(&mut self.nodes, parent, NodeData::Comment(from_chars(&content)));
        next
    }

    fn end_tag(&mut self, cs: &[char], i: usize) -> (res: usize)
        requires
            old(self).inv(),
            i + 1 < cs@.len(),
        ensures
            final(self).inv(),
            (final(self)@, res as int) == end_tag_step(cs@, old(self)@, i as int),
            i < res <= cs@.len(),
    {
        let n = cs.len();
        let stops = ['>'];
        assert(stops@ =~= seq!['>']);
        let name_end = scan_until(cs, i + 2, &stops);
        let name = to_lower(&slice_of(cs, i + 2, name_end));
        let close = crate::chars::index_of(cs, name_end, '>');
        proof {
            crate::chars::lemma_scan_to_bounds(cs@, name_end as int, '>');
        }
        let ghost tags = self@.tags;
        let mut k = self.tags.len() - 1;
        while k >= 1 && !chars_eq(&self.tags[k], &name)
            invariant
                k < self.tags@.len(),
                self@.tags == tags,
                close_at(tags, name@, k as int) == close_at(tags, name@, tags.len() - 1),
            decreases k,
        {
            k -= 1;
        }
        if k >= 1 {
            self.open.truncate(k);
            self.tags.truncate(k);
            assert(vv(self.tags@) =~= tags.take(k as int));
        }
        if close < n {
            close + 1
        } else {
            n
        }
    }

    fn element(&mut self, cs: &[char], low: &[char], voids: &Vec<Vec<char>>, i: usize) -> (res: usize)
        requires
            old(self).inv(),
            i < cs@.len(),
            low@ == lower(cs@),
            vv(voids@) == void_tags(),
        ensures
            final(self).inv(),
            (final(self)@, res as int) == element_step(cs@, old(self)@, i as int),
            i < res <= cs@.len(),
    {
        let n = cs.len();
        let (tag, attributes, self_closing, next) = read_start_tag(cs, i);
        let parent = self.parent();
        let id = add_node(&mut self.nodes, parent, NodeData::Element { tag: from_chars(&tag), attributes });
        if self_closing || list_contains(voids, &tag) {
            return next;
        }
        let is_raw = chars_eq(&tag, &to_chars("script")) || chars_eq(&tag, &to_chars("style"));
        let is_text = is_raw || chars_eq(&tag, &to_chars("textarea")) || chars_eq(&tag, &to_chars("title"));
        if is_text {
            let mut closing: Vec<char> = Vec::new();
            closing.push('<');
            closing.push('/');
            push_all(&mut closing, &tag);
            assert(closing@ =~= seq!['<', '/'] + tag@);
            let found = crate::chars::find(low, &closing, next);
            proof {
                crate::chars::lemma_find_from_bounds(low@, closing@, next as int);
            }
            let end = match found {
                Some(e) => e,
                None => n,
            };
            let raw = slice_of(cs, next, end);
            let content = if is_raw {
                raw
            } else {
                decode_entities(&raw)
            };
            if content.len() > 0 {
                add_node(&mut self.nodes, id, NodeData::Text(from_chars(&content)));
            }
            let close = crate::chars::index_of(cs, end, '>');
            proof {
                crate::chars::lemma_scan_to_bounds(cs@, end as int, '>');
            }
            if close < n {
                close + 1
            } else {
                n
            }
        } else {
            let ghost tags = self@.tags;
            self.open.push(id);
            self.tags.push(tag);
            assert(self@.tags =~= tags.push(tag@));
            next
        }
    }

    fn text(&mut self, cs: &[char], i: usize) -> (res: usize)
        requires
            old(self).inv(),
            i < cs@.len(),
        ensures
            final(self).inv(),
            (final(self)@, res as int) == text_step(cs@, old(self)@, i as int),
            i < res <= cs@.len(),
    {
        let n = cs.len();
        let j = crate::chars::index_of(cs, i + 1, '<');
        proof {
            crate::chars::lemma_scan_to_bounds(cs@, i + 1, '<');
        }
        let text = decode_entities(&slice_of(cs, i, j));
        if text.len() > 0 {
            let parent = self.parent();
            add_node(&mut self.nodes, parent, NodeData::Text(from_chars(&text)));
        }
        j
    }
}

/// Parses HTML into a document: node 0 is the root, an element named
/// `#document`, and the other nodes follow in document order (see [`step`]).
/// Tag and attribute names are lowercased and character references in text and
/// attribute values are decoded.
pub fn parse(html: &str) -> (res: Document)
    ensures
        res.wf(),
        arena_wf(res.nodes@),
        res@ == parse_tree(html@),
{
    let cs = to_chars(html);
    let low = to_lower(&cs);
    let n = cs.len();
    let voids = void_list();
    let open_comment = to_chars("<!--");
    let mut tree = TreeBuilder::new();
    let mut i: usize = 0;
    while i < n
        invariant
            n == cs@.len(),
            low@ == lower(cs@),
            vv(voids@) == void_tags(),
            open_comment@ == "<!--"@,
            tree.inv(),
            i <= n,
            build(cs@, tree@, i as int) == build(cs@, root_tree(), 0),
        decreases n - i,
    {
        let ghost before = tree@;
        let at_lt = cs[i] == '<';
        let next = if at_lt && match_at(&cs, &open_comment, i) {
            tree.comment(&cs, i)
        } else if at_lt && i + 1 < n && cs[i + 1] == '/' {
            tree.end_tag(&cs, i)
        } else if at_lt && i + 1 < n && (cs[i + 1] == '!' || cs[i + 1] == '?') {
            let close = crate::chars::index_of(&cs, i + 1, '>');
            proof {
                crate::chars::lemma_scan_to_bounds(cs@, i + 1, '>');
            }
            if close < n {
                close + 1
            } else {
                n
            }
        } else if at_lt && i + 1 < n && is_ascii_alpha(cs[i + 1]) {
            tree.element(&cs, &low, &voids, i)
        } else {
            tree.text(&cs, i)
        };
        assert((tree@, next as int) == step(cs@, before, i as int));
        i = next;
    }
    Document { nodes: tree.nodes }
}

} // verus!
