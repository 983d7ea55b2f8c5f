//! Cloudflare challenge detection and solving.
//!
//! Detects Cloudflare "Under Attack Mode" (IUAM) challenge pages, extracts
//! the challenge JavaScript and the challenge form, and decides, from the
//! outcome of each script evaluation, what to try next and what cookie
//! should be set for the next request.
//!
//! # Typical Cloudflare challenge flow:
//!
//! 1. First request returns HTTP 503 with HTML containing "Just a moment..."
//! 2. The HTML has a `<script>` block that does math/string ops
//! 3. The script computes a value and sets `document.cookie` to a clearance token
//! 4. The script then submits a form or redirects with that cookie
//! 5. The server validates the cookie and lets you through
//!
//! Evaluating the JavaScript is left to the caller: the solver hands out one
//! [`JsCall`] at a time and is resumed with its outcome.

use vstd::prelude::*;
use vstd::utf8::{decode_utf8, decode_utf8_encode_utf8, encode_scalar, encode_utf8, valid_utf8};
use crate::chars::{
    contains, find, find_from, from_chars, index_of, is_whitespace, is_ws, lemma_find_from_bounds,
    lemma_scan_to_bounds, lower, opt_int, push_all, scan_to, slice_of, to_chars, to_lower, trim,
    trim_chars, vv, contains_seq,
};

verus! {

// --- Byte lengths, numbers and cuts --------------------------------------

/// The number of bytes of the UTF-8 encoding of `s` (`str::len`).
pub open spec fn byte_len(s: Seq<char>) -> nat {
    encode_utf8(s).len()
}

/// The number of bytes of the UTF-8 encoding of `c`.
pub open spec fn char_width(c: char) -> nat {
    encode_scalar(c as u32).len()
}

/// The longest prefix of `s` whose UTF-8 encoding has at most `n` bytes.
pub open spec fn prefix_within(s: Seq<char>, n: int) -> Seq<char>
    decreases s.len(),
{
    if s.len() == 0 || char_width(s[0]) > n {
        Seq::empty()
    } else {
        seq![s[0]] + prefix_within(s.drop_first(), n - char_width(s[0]))
    }
}

/// Byte `min(len, n)` of `s` falls on a character boundary, so that `&s[..min(len, n)]`
/// is defined.
pub open spec fn cut_ok(s: Seq<char>, n: int) -> bool {
    byte_len(prefix_within(s, n)) == if byte_len(s) <= n {
        byte_len(s) as int
    } else {
        n
    }
}

/// The decimal digits.
pub open spec fn digits() -> Seq<char> {
    seq!['0', '1', '2', '3', '4', '5', '6', '7', '8', '9']
}

/// The decimal representation of `n` (`{}` formatting of an integer).
pub open spec fn decimal(n: nat) -> Seq<char>
    decreases n,
{
    if n < 10 {
        seq![digits()[n as int]]
    } else {
        decimal(n / 10).push(digits()[(n % 10) as int])
    }
}

proof fn lemma_encode_concat(a: Seq<char>, b: Seq<char>)
    ensures
        encode_utf8(a + b) == encode_utf8(a) + encode_utf8(b),
    decreases a.len(),
{
    if a.len() == 0 {
        assert(a + b =~= b);
        assert(encode_utf8(a) =~= Seq::<u8>::empty());
        assert(encode_utf8(a) + encode_utf8(b) =~= encode_utf8(b));
    } else {
        lemma_encode_concat(a.drop_first(), b);
        assert((a + b).drop_first() =~= a.drop_first() + b);
        assert((a + b)[0] == a[0]);
        assert(encode_utf8(a + b) =~= encode_scalar(a[0] as u32) + encode_utf8(a.drop_first() + b));
    }
}

proof fn lemma_byte_len_single(c: char)
    ensures
        byte_len(seq![c]) == char_width(c),
{
    assert(seq![c].drop_first() =~= Seq::<char>::empty());
    assert(encode_utf8(Seq::<char>::empty()) =~= Seq::<u8>::empty());
    assert(encode_utf8(seq![c]) =~= encode_scalar(c as u32));
}

proof fn lemma_byte_len_push(s: Seq<char>, c: char)
    ensures
        byte_len(s.push(c)) == byte_len(s) + char_width(c),
{
    lemma_encode_concat(s, seq![c]);
    assert(s.push(c) =~= s + seq![c]);
    lemma_byte_len_single(c);
}

proof fn lemma_byte_len_sub(s: Seq<char>, a: int, b: int)
    requires
        0 <= a <= b <= s.len(),
    ensures
        byte_len(s.subrange(a, b)) <= byte_len(s),
        byte_len(s.subrange(0, b)) <= byte_len(s),
{
    let x = s.subrange(0, a);
    let y = s.subrange(a, b);
    let z = s.subrange(b, s.len() as int);
    assert(s =~= x + y + z);
    lemma_encode_concat(x + y, z);
    lemma_encode_concat(x, y);
    assert(s.subrange(0, b) =~= x + y);
}

/// The UTF-8 width of one character.
fn width(c: char) -> (res: usize)
    ensures
        res == char_width(c),
        1 <= res <= 4,
{
    let u: u32 = c as u32;
    if u <= 0x7F {
        1
    } else if u <= 0x7FF {
        2
    } else if u <= 0xFFFF {
        3
    } else {
        4
    }
}

/// The number of bytes of the UTF-8 encoding of `s`.
fn utf8_len(s: &[char]) -> (res: usize)
    requires
        byte_len(s@) <= usize::MAX,
    ensures
        res == byte_len(s@),
{
    let mut total: usize = 0;
    let mut i: usize = 0;
    while i < s.len()
        invariant
            i <= s@.len(),
            byte_len(s@) <= usize::MAX,
            total == byte_len(s@.take(i as int)),
        decreases s@.len() - i,
    {
        proof {
            assert(s@.take(i + 1) =~= s@.take(i as int).push(s@[i as int]));
            lemma_byte_len_push(s@.take(i as int), s@[i as int]);
            lemma_byte_len_sub(s@, 0, i + 1);
            assert(s@.take(i + 1) =~= s@.subrange(0, i + 1));
        }
        total = total + width(s[i]);
        i += 1;
    }
    assert(s@.take(s@.len() as int) =~= s@);
    total
}

/// Whether the UTF-8 encoding of `s` has more than `n` bytes.
fn utf8_len_exceeds(s: &[char], n: usize) -> (res: bool)
    requires
        n < usize::MAX - 4,
    ensures
        res == (byte_len(s@) > n),
{
    let mut total: usize = 0;
    let mut i: usize = 0;
    while i < s.len()
        invariant
            i <= s@.len(),
            n < usize::MAX - 4,
            total <= n,
            total == byte_len(s@.take(i as int)),
        decreases s@.len() - i,
    {
        proof {
            assert(s@.take(i + 1) =~= s@.take(i as int).push(s@[i as int]));
            lemma_byte_len_push(s@.take(i as int), s@[i as int]);
        }
        total = total + width(s[i]);
        i += 1;
        if total > n {
            proof {
                lemma_byte_len_sub(s@, 0, i as int);
                assert(s@.take(i as int) =~= s@.subrange(0, i as int));
            }
            return true;
        }
    }
    assert(s@.take(s@.len() as int) =~= s@);
    false
}

/// The longest prefix of `s` whose UTF-8 encoding has at most `n` bytes.
fn cut(s: &[char], n: usize) -> (res: Vec<char>)
    ensures
        res@ == prefix_within(s@, n as int),
{
    let mut res: Vec<char> = Vec::new();
    let mut room: usize = n;
    let mut i: usize = 0;
    assert(s@.skip(0) =~= s@);
    assert(res@ + prefix_within(s@, n as int) =~= prefix_within(s@, n as int));
    while i < s.len() && width(s[i]) <= room
        invariant
            i <= s@.len(),
            res@ == s@.take(i as int),
            prefix_within(s@, n as int) == res@ + prefix_within(s@.skip(i as int), room as int),
        decreases s@.len() - i,
    {
        let w = width(s[i]);
        proof {
            let t = s@.skip(i as int);
            assert(t[0] == s@[i as int]);
            assert(t.drop_first() =~= s@.skip(i + 1));
            assert(prefix_within(t, room as int) == seq![t[0]] + prefix_within(
                t.drop_first(),
                room - w,
            ));
        }
        res.push(s[i]);
        room = room - w;
        i += 1;
        assert(res@ =~= s@.take(i as int));
        assert(prefix_within(s@, n as int) =~= res@ + prefix_within(s@.skip(i as int), room as int));
    }
    proof {
        let t = s@.skip(i as int);
        if i < s@.len() {
            assert(t[0] == s@[i as int]);
        }
        assert(prefix_within(t, room as int) =~= Seq::<char>::empty());
        assert(res@ + Seq::<char>::empty() =~= res@);
    }
    res
}

proof fn lemma_prefix_within_len(s: Seq<char>, n: int)
    requires
        0 <= n,
    ensures
        byte_len(prefix_within(s, n)) <= n,
    decreases s.len(),
{
    if s.len() > 0 && char_width(s[0]) <= n {
        let w = char_width(s[0]);
        lemma_prefix_within_len(s.drop_first(), n - w);
        lemma_encode_concat(seq![s[0]], prefix_within(s.drop_first(), n - w));
        lemma_byte_len_single(s[0]);
    } else {
        assert(encode_utf8(Seq::<char>::empty()) =~= Seq::<u8>::empty());
    }
}

/// Whether byte `min(len, n)` of `s` falls on a character boundary.
fn cuts_cleanly(s: &[char], n: usize) -> (res: bool)
    requires
        n < usize::MAX - 4,
    ensures
        res == cut_ok(s@, n as int),
{
    let prefix = cut(s, n);
    proof {
        lemma_prefix_within_len(s@, n as int);
    }
    let taken = utf8_len(&prefix);
    if utf8_len_exceeds(s, n) {
        taken == n
    } else {
        taken == utf8_len(s)
    }
}

/// The decimal representation of `n`.
fn decimal_exec(n: usize) -> (res: Vec<char>)
    ensures
        res@ == decimal(n as nat),
    decreases n,
{
    let ds: [char; 10] = ['0', '1', '2', '3', '4', '5', '6', '7', '8', '9'];
    assert(ds@ =~= digits());
    if n < 10 {
        let mut v: Vec<char> = Vec::new();
        v.push(ds[n]);
        assert(v@ =~= seq![digits()[n as int]]);
        v
    } else {
        let mut v = decimal_exec(n / 10);
        v.push(ds[n % 10]);
        v
    }
}

// --- Page analysis: specification ----------------------------------------

/// Texts that only Cloudflare challenge pages contain.
pub open spec fn indicators() -> Seq<Seq<char>> {
    seq![
        "Just a moment..."@,
        "cf-browser-verification"@,
        "cf_chl_opt"@,
        "cf_chl_prog"@,
        "cf-challenge-running"@,
        "_cf_chl_opt"@,
        "Checking your browser"@,
        "jschl_vc"@,
        "jschl_answer"@,
        "cf_chl_2"@,
        "turnstile"@,
        "challenges.cloudflare.com"@,
        "__cf_chl_f_tk"@,
    ]
}

/// The page contains one of the challenge indicators.
pub open spec fn is_challenge_page(html: Seq<char>) -> bool {
    exists|k: int| 0 <= k < indicators().len() && contains(html, #[trigger] indicators()[k])
}

/// `find` in `h` from `from` on, with no match when `from` is past the end.
pub open spec fn find_ic(h: Seq<char>, n: Seq<char>, from: int) -> Option<int> {
    if from >= h.len() {
        None
    } else {
        find_from(h, n, from)
    }
}

/// First index at or after `i` that ends an unquoted attribute value: whitespace,
/// `>` or `/` (or the length).
pub open spec fn unquoted_end(s: Seq<char>, i: int) -> int
    decreases s.len() - i,
{
    if 0 <= i < s.len() && !(is_ws(s[i]) || s[i] == '>' || s[i] == '/') {
        unquoted_end(s, i + 1)
    } else {
        i
    }
}

/// The value of attribute `name` in the tag text `tag`: found case-insensitively
/// as `name=`, then read up to the closing quote, or up to whitespace, `>` or `/`
/// when unquoted; none when the name is absent or a quote is not closed.
pub open spec fn attribute_spec(tag: Seq<char>, name: Seq<char>) -> Option<Seq<char>> {
    let needle = name + "="@;
    match find_from(lower(tag), needle, 0) {
        None => None,
        Some(pos) => {
            let after = tag.subrange(pos + needle.len(), tag.len() as int);
            if after.len() > 0 && (after[0] == '"' || after[0] == '\'') {
                let e = scan_to(after, 1, after[0]);
                if e < after.len() {
                    Some(after.subrange(1, e))
                } else {
                    None
                }
            } else {
                Some(after.subrange(0, unquoted_end(after, 0)))
            }
        },
    }
}

proof fn lemma_scan_to_quote(s: Seq<char>, i: int, e: int, c: char)
    requires
        0 <= i <= e < s.len(),
        s[e] == c,
        forall|k: int| i <= k < e ==> s[k] != c,
    ensures
        scan_to(s, i, c) == e,
    decreases e - i,
{
    if i < e {
        lemma_scan_to_quote(s, i + 1, e, c);
    }
}

/// A quoted attribute value is read up to its closing quote: where the first
/// `name=` of the tag (found ignoring case) is followed by a quote (`"` or
/// `'`), a value `v` holding no such quote, and the same quote again, the
/// attribute's value is `v`.
pub proof fn lemma_quoted_attribute(tag: Seq<char>, name: Seq<char>, pos: int, q: char, v: Seq<char>)
    requires
        find_from(lower(tag), name + "="@, 0) == Some(pos),
        q == '"' || q == '\'',
        !v.contains(q),
        crate::chars::matches_at(tag, seq![q] + v + seq![q], pos + name.len() + 1),
    ensures
        attribute_spec(tag, name) == Some(v),
{
    reveal_strlit("=");
    let needle = name + "="@;
    let start = pos + needle.len();
    let after = tag.subrange(start, tag.len() as int);
    let w = seq![q] + v + seq![q];
    let n: int = v.len() as int;
    assert(tag.subrange(start, start + w.len()) == w);
    assert(after[0] == q) by {
        assert(after[0] == tag[start]);
        assert(w[0] == q);
    }
    assert forall|k: int| 1 <= k < n + 1 implies after[k] != q by {
        assert(after[k] == tag[start + k]);
        assert(tag[start + k] == w[k]);
        assert(w[k] == v[k - 1]);
        if v[k - 1] == q {
            assert(v.contains(q));
        }
    }
    assert(after[n + 1] == q) by {
        assert(after[n + 1] == tag[start + n + 1]);
        assert(w[n + 1] == q);
    }
    lemma_scan_to_quote(after, 1, n + 1, q);
    assert(after.subrange(1, n + 1) =~= v) by {
        assert forall|k: int| 0 <= k < v.len() implies after.subrange(1, n + 1)[k] == v[k] by {
            assert(after[k + 1] == tag[start + k + 1]);
            assert(tag[start + k + 1] == w[k + 1]);
        }
    }
}

proof fn lemma_unquoted_end_bounds(s: Seq<char>, i: int)
    requires
        0 <= i <= s.len(),
    ensures
        i <= unquoted_end(s, i) <= s.len(),
        forall|k: int| i <= k < unquoted_end(s, i) ==> !(is_ws(#[trigger] s[k]) || s[k] == '>' || s[k] == '/'),
        unquoted_end(s, i) < s.len() ==> (is_ws(s[unquoted_end(s, i)]) || s[unquoted_end(s, i)] == '>'
            || s[unquoted_end(s, i)] == '/'),
    decreases s.len() - i,
{
    if i < s.len() && !(is_ws(s[i]) || s[i] == '>' || s[i] == '/') {
        lemma_unquoted_end_bounds(s, i + 1);
    }
}

/// An unquoted attribute value is everything after the first `name=` up to the
/// first whitespace, `>` or `/` (or the end of the tag).
pub proof fn lemma_unquoted_attribute(tag: Seq<char>, name: Seq<char>, pos: int)
    requires
        find_from(lower(tag), name + "="@, 0) == Some(pos),
        pos + name.len() + 1 < tag.len() ==> tag[pos + name.len() + 1] != '"' && tag[pos + name.len() + 1]
            != '\'',
    ensures
        attribute_spec(tag, name) matches Some(v) && {
            let start = pos + name.len() + 1;
            &&& start + v.len() <= tag.len()
            &&& tag.subrange(start, start + v.len()) == v
            &&& forall|k: int| 0 <= k < v.len() ==> !(is_ws(#[trigger] v[k]) || v[k] == '>' || v[k] == '/')
            &&& (start + v.len() == tag.len() || is_ws(tag[start + v.len()]) || tag[start + v.len()] == '>'
                || tag[start + v.len()] == '/')
        },
{
    reveal_strlit("=");
    crate::chars::lemma_find_from_bounds(lower(tag), name + "="@, 0);
    let start = pos + name.len() + 1;
    let after = tag.subrange(start, tag.len() as int);
    lemma_unquoted_end_bounds(after, 0);
    let e = unquoted_end(after, 0);
    let v = after.subrange(0, e);
    assert(tag.subrange(start, start + v.len()) =~= v);
    assert forall|k: int| 0 <= k < v.len() implies !(is_ws(#[trigger] v[k]) || v[k] == '>' || v[k] == '/') by {
        assert(v[k] == after[k]);
    }
    if e < after.len() {
        assert(after[e] == tag[start + e]);
    }
}

/// The patterns that mark a script as part of a challenge.
pub open spec fn challenge_patterns() -> Seq<Seq<char>> {
    seq![
        "document.cookie"@,
        "cf_chl"@,
        "jschl"@,
        "challenge"@,
        "cf_clearance"@,
        "__cf_chl"@,
        "turnstile"@,
        "cpo.src"@,
        "cRq"@,
        "window._cf_chl_opt"@,
    ]
}

/// A script looks like a challenge: it contains one of the challenge patterns, or
/// does string arithmetic (`parseInt` with `charAt`), or math with `+=` or `*=`.
pub open spec fn is_challenge_script_spec(s: Seq<char>) -> bool {
    ||| exists|k: int|
        0 <= k < challenge_patterns().len() && contains(s, #[trigger] challenge_patterns()[k])
    ||| contains(s, "parseInt"@) && contains(s, "charAt"@)
    ||| contains(s, "Math."@) && (contains(s, "+="@) || contains(s, "*="@))
}

/// The challenge scripts, in order, each followed by `;` and a line break.
pub open spec fn combined_spec(scripts: Seq<Seq<char>>) -> Seq<char>
    decreases scripts.len(),
{
    if scripts.len() == 0 {
        Seq::empty()
    } else {
        combined_spec(scripts.drop_last()) + if is_challenge_script_spec(scripts.last()) {
            scripts.last() + ";\n"@
        } else {
            Seq::empty()
        }
    }
}

/// The non-blank inline `<script>` bodies from index `pos` on, trimmed; scripts
/// whose opening tag has `src=` (or `src =`) are skipped.
pub open spec fn scripts_from(html: Seq<char>, pos: int) -> Seq<Seq<char>>
    decreases html.len() - pos,
{
    let low = lower(html);
    match find_ic(low, "<script"@, pos) {
        None => Seq::empty(),
        Some(start) => {
            let gt = scan_to(low, start, '>');
            if start < pos || gt < start || gt >= html.len() {
                Seq::empty()
            } else {
                let tag_end = gt + 1;
                let tag = html.subrange(start, tag_end);
                if contains(tag, "src="@) || contains(tag, "src ="@) {
                    scripts_from(html, tag_end)
                } else {
                    match find_ic(low, "</script"@, tag_end) {
                        None => Seq::empty(),
                        Some(se) => {
                            if se < tag_end {
                                Seq::empty()
                            } else {
                                let body = trim(html.subrange(tag_end, se));
                                (if body.len() > 0 {
                                    seq![body]
                                } else {
                                    Seq::empty()
                                }) + if se + 9 <= html.len() {
                                    scripts_from(html, se + 9)
                                } else {
                                    Seq::empty()
                                }
                            }
                        },
                    }
                }
            }
        },
    }
}

/// The scan for scripts from index `pos` on never resumes inside a character that
/// takes more than one byte: no `</script` it ends a script at is followed by a
/// non-ASCII character.
pub open spec fn scripts_ok(html: Seq<char>, pos: int) -> bool
    decreases html.len() - pos,
{
    let low = lower(html);
    match find_ic(low, "<script"@, pos) {
        None => true,
        Some(start) => {
            let gt = scan_to(low, start, '>');
            if start < pos || gt < start || gt >= html.len() {
                true
            } else {
                let tag_end = gt + 1;
                let tag = html.subrange(start, tag_end);
                if contains(tag, "src="@) || contains(tag, "src ="@) {
                    scripts_ok(html, tag_end)
                } else {
                    match find_ic(low, "</script"@, tag_end) {
                        None => true,
                        Some(se) => {
                            if se < tag_end {
                                true
                            } else {
                                (se + 8 < html.len() ==> (html[se + 8] as u32) < 0x80) && (se
                                    + 9 <= html.len() ==> scripts_ok(html, se + 9))
                            }
                        },
                    }
                }
            }
        },
    }
}

/// The `(name, value)` pairs of the `<input>` tags of a form body from index `i`
/// on, for inputs that have both.
pub open spec fn hidden_inputs_from(body: Seq<char>, i: int) -> Seq<(Seq<char>, Seq<char>)>
    decreases body.len() - i,
{
    let low = lower(body);
    match find_ic(low, "<input"@, i) {
        None => Seq::empty(),
        Some(start) => {
            let gt = scan_to(low, start, '>');
            if start < i || gt < start || gt >= body.len() {
                Seq::empty()
            } else {
                let tag = body.subrange(start, gt + 1);
                (match (attribute_spec(tag, "name"@), attribute_spec(tag, "value"@)) {
                    (Some(n), Some(v)) => seq![(n, v)],
                    _ => Seq::empty(),
                }) + hidden_inputs_from(body, gt + 1)
            }
        },
    }
}

/// The challenge form of a page: the `action` of its first `<form>` tag, if it has
/// one, and the named inputs of that form's body; none when there is no complete
/// `<form ...>` tag.
pub open spec fn form_data_spec(html: Seq<char>) -> Option<(Option<Seq<char>>, Seq<(Seq<char>, Seq<char>)>)> {
    let low = lower(html);
    match find_ic(low, "<form"@, 0) {
        None => None,
        Some(fs) => {
            let gt = scan_to(low, fs, '>');
            if gt >= html.len() {
                None
            } else {
                let form_tag = html.subrange(fs, gt + 1);
                let form_end = match find_ic(low, "</form"@, gt) {
                    Some(e) => e,
                    None => html.len() as int,
                };
                let body = html.subrange(gt + 1, form_end);
                Some((attribute_spec(form_tag, "action"@), hidden_inputs_from(body, 0)))
            }
        },
    }
}

/// The ways a script may assign `document.cookie` directly.
pub open spec fn cookie_patterns() -> Seq<Seq<char>> {
    seq![
        "document.cookie=\""@,
        "document.cookie='"@,
        "document.cookie = \""@,
        "document.cookie = '"@,
    ]
}

/// Trying the cookie patterns from the `k`-th on: at the first occurrence of the
/// pattern, the quoted text up to the matching quote, when it holds `=` and is
/// longer than five bytes, cut at its first `;`.
pub open spec fn inline_cookie_from(html: Seq<char>, k: int) -> Option<Seq<char>>
    decreases 4 - k,
{
    if k < 0 || k >= 4 {
        None
    } else {
        let p = cookie_patterns()[k];
        match find_from(html, p, 0) {
            None => inline_cookie_from(html, k + 1),
            Some(start) => {
                let vs = start + p.len();
                let e = scan_to(html, vs, p.last());
                if e >= html.len() {
                    inline_cookie_from(html, k + 1)
                } else {
                    let cookie = html.subrange(vs, e);
                    if contains(cookie, "="@) && byte_len(cookie) > 5 {
                        Some(cookie.subrange(0, scan_to(cookie, 0, ';')))
                    } else {
                        inline_cookie_from(html, k + 1)
                    }
                }
            },
        }
    }
}

/// A cookie assigned directly by an inline script, if there is one.
pub open spec fn inline_cookie_spec(html: Seq<char>) -> Option<Seq<char>> {
    inline_cookie_from(html, 0)
}

// --- Page analysis: implementation ---------------------------------------

fn indicator_list() -> (res: Vec<Vec<char>>)
    ensures
        vv(res@) == indicators(),
{
    let mut v: Vec<Vec<char>> = Vec::new();
    v.push(to_chars("Just a moment..."));
    v.push(to_chars("cf-browser-verification"));
    v.push(to_chars("cf_chl_opt"));
    v.push(to_chars("cf_chl_prog"));
    v.push(to_chars("cf-challenge-running"));
    v.push(to_chars("_cf_chl_opt"));
    v.push(to_chars("Checking your browser"));
    v.push(to_chars("jschl_vc"));
    v.push(to_chars("jschl_answer"));
    v.push(to_chars("cf_chl_2"));
    v.push(to_chars("turnstile"));
    v.push(to_chars("challenges.cloudflare.com"));
    v.push(to_chars("__cf_chl_f_tk"));
    assert(vv(v@) =~= indicators());
    v
}

fn pattern_list() -> (res: Vec<Vec<char>>)
    ensures
        vv(res@) == challenge_patterns(),
{
    let mut v: Vec<Vec<char>> = Vec::new();
    v.push(to_chars("document.cookie"));
    v.push(to_chars("cf_chl"));
    v.push(to_chars("jschl"));
    v.push(to_chars("challenge"));
    v.push(to_chars("cf_clearance"));
    v.push(to_chars("__cf_chl"));
    v.push(to_chars("turnstile"));
    v.push(to_chars("cpo.src"));
    v.push(to_chars("cRq"));
    v.push(to_chars("window._cf_chl_opt"));
    assert(vv(v@) =~= challenge_patterns());
    v
}

/// Whether `s` contains one of the sequences in `list`.
fn contains_any(s: &[char], list: &Vec<Vec<char>>) -> (res: bool)
    ensures
        res == exists|k: int| 0 <= k < list@.len() && contains(s@, #[trigger] vv(list@)[k]),
{
    let mut k: usize = 0;
    while k < list.len()
        invariant
            k <= list@.len(),
            forall|j: int| 0 <= j < k ==> !contains(s@, #[trigger] vv(list@)[j]),
        decreases list@.len() - k,
    {
        assert(vv(list@)[k as int] == list@[k as int]@);
        if contains_seq(s, &list[k]) {
            return true;
        }
        k += 1;
    }
    false
}

/// Detect whether HTML content is a Cloudflare challenge page.
pub fn is_cloudflare_challenge(html: &str) -> (res: bool)
    ensures
        res == is_challenge_page(html@),
{
    let cs = to_chars(html);
    let list = indicator_list();
    let r = contains_any(&cs, &list);
    assert(r == is_challenge_page(html@)) by {
        if r {
            let k = choose|k: int| 0 <= k < list@.len() && contains(cs@, #[trigger] vv(list@)[k]);
            assert(contains(html@, indicators()[k]));
        }
        if is_challenge_page(html@) {
            let k = choose|k: int| 0 <= k < indicators().len() && contains(html@, #[trigger] indicators()[k]);
            assert(contains(cs@, vv(list@)[k]));
        }
    }
    r
}

/// `find` from `from` on, with no match when `from` is past the end.
fn find_ignoring_case(haystack: &[char], needle: &[char], from: usize) -> (res: Option<usize>)
    ensures
        opt_int(res) == find_ic(haystack@, needle@, from as int),
        res matches Some(k) ==> from <= k && k + needle@.len() <= haystack@.len(),
{
    if from >= haystack.len() {
        return None;
    }
    proof {
        lemma_find_from_bounds(haystack@, needle@, from as int);
    }
    find(haystack, needle, from)
}

/// First index at or after `i` that ends an unquoted attribute value.
fn find_unquoted_end(s: &[char], i: usize) -> (res: usize)
    requires
        i <= s@.len(),
    ensures
        res == unquoted_end(s@, i as int),
        i <= res <= s@.len(),
{
    let mut k = i;
    while k < s.len() && !(is_whitespace(s[k]) || s[k] == '>' || s[k] == '/')
        invariant
            i <= k <= s@.len(),
            unquoted_end(s@, k as int) == unquoted_end(s@, i as int),
        decreases s@.len() - k,
    {
        k += 1;
    }
    k
}

/// The value of attribute `attr_name` in the tag text `tag`.
fn extract_attribute(tag: &[char], attr_name: &[char]) -> (res: Option<Vec<char>>)
    ensures
        match res {
            Some(v) => attribute_spec(tag@, attr_name@) == Some(v@),
            None => attribute_spec(tag@, attr_name@) is None,
        },
{
    let low = to_lower(tag);
    let mut needle: Vec<char> = Vec::new();
    push_all(&mut needle, attr_name);
    needle.push('=');
    proof {
        reveal_strlit("=");
        assert(needle@ =~= attr_name@ + "="@);
    }
    let pos = match find(&low, &needle, 0) {
        Some(p) => p,
        None => {
            return None;
        },
    };
    proof {
        lemma_find_from_bounds(low@, needle@, 0);
    }
    let tag_len = tag.len();
    assert(low@.len() == tag@.len());
    let after = slice_of(tag, pos + needle.len(), tag_len);
    if after.len() > 0 && (after[0] == '"' || after[0] == '\'') {
        let quote = after[0];
        let e = index_of(&after, 1, quote);
        proof {
            lemma_scan_to_bounds(after@, 1, quote);
        }
        if e < after.len() {
            Some(slice_of(&after, 1, e))
        } else {
            None
        }
    } else {
        let end = find_unquoted_end(&after, 0);
        Some(slice_of(&after, 0, end))
    }
}

/// All non-blank inline `<script>` bodies, trimmed.
fn extract_scripts(html: &[char]) -> (res: Vec<Vec<char>>)
    requires
        scripts_ok(html@, 0),
    ensures
        vv(res@) == scripts_from(html@, 0),
{
    let mut scripts: Vec<Vec<char>> = Vec::new();
    let low = to_lower(html);
    let open_tag = to_chars("<script");
    let close_tag = to_chars("</script");
    let src1 = to_chars("src=");
    let src2 = to_chars("src =");
    let mut pos: usize = 0;
    assert(vv(scripts@) + scripts_from(html@, 0) =~= scripts_from(html@, 0));
    loop
        invariant_except_break
            vv(scripts@) + scripts_from(html@, pos as int) == scripts_from(html@, 0),
        invariant
            low@ == lower(html@),
            open_tag@ == "<script"@,
            close_tag@ == "</script"@,
            src1@ == "src="@,
            src2@ == "src ="@,
            pos <= html@.len(),
            scripts_ok(html@, pos as int),
        ensures
            vv(scripts@) == scripts_from(html@, 0),
        decreases html@.len() - pos,
    {
        let ghost before = vv(scripts@);
        let start = match find_ignoring_case(&low, &open_tag, pos) {
            Some(s) => s,
            None => {
                assert(before + Seq::<Seq<char>>::empty() =~= before);
                break;
            },
        };
        let gt = index_of(&low, start, '>');
        proof {
            lemma_scan_to_bounds(low@, start as int, '>');
        }
        if gt >= html.len() {
            assert(before + Seq::<Seq<char>>::empty() =~= before);
            break;
        }
        let tag_end = gt + 1;
        let tag = slice_of(html, start, tag_end);
        if contains_seq(&tag, &src1) || contains_seq(&tag, &src2) {
            pos = tag_end;
            continue;
        }
        let se = match find_ignoring_case(&low, &close_tag, tag_end) {
            Some(x) => x,
            None => {
                assert(before + Seq::<Seq<char>>::empty() =~= before);
                break;
            },
        };
        let body = trim_chars(&slice_of(html, tag_end, se));
        let ghost this: Seq<Seq<char>> = if body@.len() > 0 {
            seq![body@]
        } else {
            Seq::empty()
        };
        if body.len() > 0 {
            scripts.push(body);
        }
        assert(vv(scripts@) =~= before + this);
        if html.len() - se < 9 {
            assert(vv(scripts@) + Seq::<Seq<char>>::empty() =~= vv(scripts@));
            assert(scripts_from(html@, pos as int) == this + Seq::<Seq<char>>::empty());
            assert(before + scripts_from(html@, pos as int) =~= vv(scripts@));
            break;
        }
        assert(scripts_from(html@, pos as int) == this + scripts_from(html@, se + 9));
        assert(before + scripts_from(html@, pos as int) =~= vv(scripts@) + scripts_from(html@, se + 9));
        pos = se + 9;
    }
    scripts
}

/// Whether the scripts of `html` can be extracted: no `</script` that ends a
/// script is followed by a character that takes more than one byte.
pub fn can_extract_scripts(html: &str) -> (res: bool)
    ensures
        res == scripts_ok(html@, 0),
{
    let chars = to_chars(html);
    let low = to_lower(&chars);
    let open_tag = to_chars("<script");
    let close_tag = to_chars("</script");
    let src1 = to_chars("src=");
    let src2 = to_chars("src =");
    let mut pos: usize = 0;
    loop
        invariant
            chars@ == html@,
            low@ == lower(html@),
            open_tag@ == "<script"@,
            close_tag@ == "</script"@,
            src1@ == "src="@,
            src2@ == "src ="@,
            pos <= html@.len(),
            scripts_ok(html@, 0) == scripts_ok(html@, pos as int),
        decreases html@.len() - pos,
    {
        let start = match find_ignoring_case(&low, &open_tag, pos) {
            Some(s) => s,
            None => {
                return true;
            },
        };
        let gt = index_of(&low, start, '>');
        proof {
            lemma_scan_to_bounds(low@, start as int, '>');
        }
        if gt >= chars.len() {
            return true;
        }
        let tag_end = gt + 1;
        let tag = slice_of(&chars, start, tag_end);
        if contains_seq(&tag, &src1) || contains_seq(&tag, &src2) {
            pos = tag_end;
            continue;
        }
        let se = match find_ignoring_case(&low, &close_tag, tag_end) {
            Some(x) => x,
            None => {
                return true;
            },
        };
        if chars.len() - se > 8 && (chars[se + 8] as u32) >= 0x80 {
            return false;
        }
        if chars.len() - se < 9 {
            return true;
        }
        pos = se + 9;
    }
}

/// Whether a script looks like part of a challenge.
fn is_challenge_script(script: &[char]) -> (res: bool)
    ensures
        res == is_challenge_script_spec(script@),
{
    let list = pattern_list();
    let any = contains_any(script, &list);
    proof {
        if any {
            let k = choose|k: int| 0 <= k < list@.len() && contains(script@, #[trigger] vv(list@)[k]);
            assert(contains(script@, challenge_patterns()[k]));
        }
        if exists|k: int| 0 <= k < challenge_patterns().len() && contains(script@, #[trigger] challenge_patterns()[k]) {
            let k = choose|k: int| 0 <= k < challenge_patterns().len() && contains(script@, #[trigger] challenge_patterns()[k]);
            assert(contains(script@, vv(list@)[k]));
        }
    }
    if any {
        return true;
    }
    if contains_seq(script, &to_chars("parseInt")) && contains_seq(script, &to_chars("charAt")) {
        return true;
    }
    contains_seq(script, &to_chars("Math.")) && (contains_seq(script, &to_chars("+="))
        || contains_seq(script, &to_chars("*=")))
}

/// The challenge scripts, each followed by `;` and a line break.
fn combine_challenge_scripts(scripts: &Vec<Vec<char>>) -> (res: Vec<char>)
    ensures
        res@ == combined_spec(vv(scripts@)),
{
    let mut combined: Vec<char> = Vec::new();
    let mut k: usize = 0;
    while k < scripts.len()
        invariant
            k <= scripts@.len(),
            combined@ == combined_spec(vv(scripts@).take(k as int)),
        decreases scripts@.len() - k,
    {
        let ghost ws = vv(scripts@);
        assert(ws.take(k + 1).drop_last() =~= ws.take(k as int));
        assert(ws.take(k + 1).last() == scripts@[k as int]@);
        if is_challenge_script(&scripts[k]) {
            push_all(&mut combined, &scripts[k]);
            combined.push(';');
            combined.push('\n');
            proof {
                reveal_strlit(";\n");
                assert(combined@ =~= combined_spec(ws.take(k as int)) + (ws.take(k + 1).last()
                    + ";\n"@));
            }
        } else {
            assert(combined@ =~= combined_spec(ws.take(k as int)) + Seq::<char>::empty());
        }
        k += 1;
    }
    assert(vv(scripts@).take(scripts@.len() as int) =~= vv(scripts@));
    combined
}

/// The named inputs of a form body from index `i` on.
fn extract_hidden_inputs(body: &[char], low: &[char], i: usize) -> (res: Vec<(Vec<char>, Vec<char>)>)
    requires
        low@ == lower(body@),
    ensures
        res@.map_values(|p: (Vec<char>, Vec<char>)| (p.0@, p.1@)) == hidden_inputs_from(body@, i as int),
{
    let mut fields: Vec<(Vec<char>, Vec<char>)> = Vec::new();
    let input_tag = to_chars("<input");
    let name_key = to_chars("name");
    let value_key = to_chars("value");
    let mut pos = i;
    let ghost start_pos = i as int;
    assert(fields@.map_values(|p: (Vec<char>, Vec<char>)| (p.0@, p.1@)) + hidden_inputs_from(body@, pos as int) =~= hidden_inputs_from(body@, start_pos));
    loop
        invariant_except_break
            fields@.map_values(|p: (Vec<char>, Vec<char>)| (p.0@, p.1@)) + hidden_inputs_from(body@, pos as int) == hidden_inputs_from(body@, start_pos),
        invariant
            low@ == lower(body@),
            input_tag@ == "<input"@,
            name_key@ == "name"@,
            value_key@ == "value"@,
            pos <= body@.len() + start_pos,
            start_pos == i,
        ensures
            fields@.map_values(|p: (Vec<char>, Vec<char>)| (p.0@, p.1@)) == hidden_inputs_from(body@, start_pos),
        decreases body@.len() + start_pos - pos,
    {
        let ghost before = fields@.map_values(|p: (Vec<char>, Vec<char>)| (p.0@, p.1@));
        let start = match find_ignoring_case(low, &input_tag, pos) {
            Some(s) => s,
            None => {
                assert(before + Seq::<(Seq<char>, Seq<char>)>::empty() =~= before);
                break;
            },
        };
        let gt = index_of(low, start, '>');
        proof {
            lemma_scan_to_bounds(low@, start as int, '>');
        }
        if gt >= body.len() {
            assert(before + Seq::<(Seq<char>, Seq<char>)>::empty() =~= before);
            break;
        }
        let tag = slice_of(body, start, gt + 1);
        let ghost this: Seq<(Seq<char>, Seq<char>)> = match (attribute_spec(tag@, "name"@), attribute_spec(tag@, "value"@)) {
            (Some(n), Some(v)) => seq![(n, v)],
            _ => Seq::empty(),
        };
        match (extract_attribute(&tag, &name_key), extract_attribute(&tag, &value_key)) {
            (Some(name), Some(value)) => {
                fields.push((name, value));
            },
            _ => {},
        }
        assert(fields@.map_values(|p: (Vec<char>, Vec<char>)| (p.0@, p.1@)) =~= before + this);
        assert(hidden_inputs_from(body@, pos as int) == this + hidden_inputs_from(body@, gt + 1));
        assert(before + hidden_inputs_from(body@, pos as int) =~= (before + this) + hidden_inputs_from(body@, gt + 1));
        pos = gt + 1;
    }
    fields
}

/// The direct cookie assignment patterns.
fn cookie_pattern_list() -> (res: Vec<Vec<char>>)
    ensures
        vv(res@) == cookie_patterns(),
{
    let mut v: Vec<Vec<char>> = Vec::new();
    v.push(to_chars("document.cookie=\""));
    v.push(to_chars("document.cookie='"));
    v.push(to_chars("document.cookie = \""));
    v.push(to_chars("document.cookie = '"));
    assert(vv(v@) =~= cookie_patterns());
    v
}

/// A cookie assigned directly by an inline script, if there is one.
fn try_extract_inline_cookie(html: &[char]) -> (res: Option<Vec<char>>)
    ensures
        match res {
            Some(c) => inline_cookie_spec(html@) == Some(c@),
            None => inline_cookie_spec(html@) is None,
        },
{
    let patterns = cookie_pattern_list();
    let eq_sign = to_chars("=");
    assert(patterns@.len() == vv(patterns@).len());
    let mut k: usize = 0;
    while k < 4
        invariant
            vv(patterns@) == cookie_patterns(),
            patterns@.len() == 4,
            eq_sign@ == "="@,
            k <= 4,
            inline_cookie_from(html@, k as int) == inline_cookie_spec(html@),
        decreases 4 - k,
    {
        let pattern = &patterns[k];
        assert(pattern@ == vv(patterns@)[k as int]);
        assert(pattern@ == cookie_patterns()[k as int]);
        let html_len = html.len();
        proof {
            reveal_strlit("document.cookie=\"");
            reveal_strlit("document.cookie='");
            reveal_strlit("document.cookie = \"");
            reveal_strlit("document.cookie = '");
        }
        if let Some(start) = find(html, pattern, 0) {
            proof {
                lemma_find_from_bounds(html@, pattern@, 0);
            }
            let value_start = start + pattern.len();
            let quote = pattern[pattern.len() - 1];
            let end = index_of(html, value_start, quote);
            proof {
                lemma_scan_to_bounds(html@, value_start as int, quote);
            }
            if end < html_len {
                let cookie = slice_of(html, value_start, end);
                if contains_seq(&cookie, &eq_sign) && utf8_len_exceeds(&cookie, 5) {
                    let semi = index_of(&cookie, 0, ';');
                    proof {
                        lemma_scan_to_bounds(cookie@, 0, ';');
                    }
                    return Some(slice_of(&cookie, 0, semi));
                }
            }
        }
        k += 1;
    }
    None
}

// --- Results and steps ---------------------------------------------------

/// Result of analyzing a page for Cloudflare challenges.
#[derive(Debug)]
pub struct ChallengeResult {
    /// Whether a Cloudflare challenge was detected.
    pub is_challenge: bool,
    /// The computed cookie value (if challenge was solved).
    pub cookie: Option<String>,
    /// The form action URL to submit to (if any).
    pub submit_url: Option<String>,
    /// Additional form fields to include in the submission.
    pub form_fields: Vec<(String, String)>,
    /// Debug info about what was detected.
    pub debug_info: String,
}

/// A [`ChallengeResult`], as sequences of characters.
pub struct ResultSpec {
    pub is_challenge: bool,
    pub cookie: Option<Seq<char>>,
    pub submit_url: Option<Seq<char>>,
    pub form_fields: Seq<(Seq<char>, Seq<char>)>,
    pub debug_info: Seq<char>,
}

/// The view of an optional string.
pub open spec fn opt_str(o: Option<String>) -> Option<Seq<char>> {
    match o {
        Some(s) => Some(s@),
        None => None,
    }
}

/// The views of a list of string pairs.
pub open spec fn fields_view(v: Seq<(String, String)>) -> Seq<(Seq<char>, Seq<char>)> {
    v.map_values(|p: (String, String)| (p.0@, p.1@))
}

impl View for ChallengeResult {
    type V = ResultSpec;

    open spec fn view(&self) -> ResultSpec {
        ResultSpec {
            is_challenge: self.is_challenge,
            cookie: opt_str(self.cookie),
            submit_url: opt_str(self.submit_url),
            form_fields: fields_view(self.form_fields@),
            debug_info: self.debug_info@,
        }
    }
}

/// One JavaScript evaluation to perform: run `script` with the page's cookies,
/// host and path, and report its `(output, cookie)` or its error.
pub struct JsCall {
    pub script: String,
    pub existing_cookies: String,
    pub hostname: String,
    pub path: String,
}

/// A [`JsCall`], as sequences of characters.
pub struct CallSpec {
    pub script: Seq<char>,
    pub existing_cookies: Seq<char>,
    pub hostname: Seq<char>,
    pub path: Seq<char>,
}

impl View for JsCall {
    type V = CallSpec;

    open spec fn view(&self) -> CallSpec {
        CallSpec {
            script: self.script@,
            existing_cookies: self.existing_cookies@,
            hostname: self.hostname@,
            path: self.path@,
        }
    }
}

/// The state of a challenge solver, as sequences of characters.
pub struct SolverSpec {
    /// The result built so far.
    pub result: ResultSpec,
    /// The inline scripts of the page.
    pub scripts: Seq<Seq<char>>,
    /// The page.
    pub html: Seq<char>,
    /// The script scan resumes at this index.
    pub next: int,
    /// The index of the script last handed out.
    pub current: int,
    /// Whether the combined script has been handed out.
    pub combined_tried: bool,
    pub existing_cookies: Seq<char>,
    pub hostname: Seq<char>,
    pub path: Seq<char>,
}

/// What to do next: evaluate a script and resume, or stop with a result.
pub enum StepSpec {
    Evaluate(SolverSpec, CallSpec),
    Done(ResultSpec),
}

/// The outcome of a script evaluation: `(output, cookie)` or an error message.
pub open spec fn outcome_view(o: Result<(String, String), String>) -> Result<(Seq<char>, Seq<char>), Seq<char>> {
    match o {
        Ok((out, cookie)) => Ok((out@, cookie@)),
        Err(e) => Err(e@),
    }
}

// --- The solver: specification -------------------------------------------

/// `r` with `t` added to its debug info.
pub open spec fn debug_add(r: ResultSpec, t: Seq<char>) -> ResultSpec {
    ResultSpec { debug_info: r.debug_info + t, ..r }
}

/// `r` with the challenge form of `html` recorded: its action as submit URL (when
/// it has one) and its named inputs as form fields.
pub open spec fn with_form_data(r: ResultSpec, html: Seq<char>) -> ResultSpec {
    match form_data_spec(html) {
        None => r,
        Some((url, fields)) => ResultSpec {
            submit_url: if url is Some {
                url
            } else {
                r.submit_url
            },
            form_fields: r.form_fields + fields,
            ..r
        },
    }
}

/// The index of the first challenge script at or after `i`.
pub open spec fn next_challenge(scripts: Seq<Seq<char>>, i: int) -> Option<int>
    decreases scripts.len() - i,
{
    if i < 0 || i >= scripts.len() {
        None
    } else if is_challenge_script_spec(scripts[i]) {
        Some(i)
    } else {
        next_challenge(scripts, i + 1)
    }
}

/// The call that evaluates `script` in the solver's context.
pub open spec fn call_of(st: SolverSpec, script: Seq<char>) -> CallSpec {
    CallSpec {
        script,
        existing_cookies: st.existing_cookies,
        hostname: st.hostname,
        path: st.path,
    }
}

/// `t` cut to at most 200 bytes.
pub open spec fn cut200(t: Seq<char>) -> Seq<char> {
    prefix_within(t, 200)
}

/// The last resort: a cookie assigned directly in the page, else give up.
pub open spec fn finish_spec(st: SolverSpec) -> ResultSpec {
    match inline_cookie_spec(st.html) {
        Some(c) => debug_add(
            ResultSpec { cookie: Some(c), ..st.result },
            "extracted cookie from inline pattern\n"@,
        ),
        None => debug_add(st.result, "could not solve challenge\n"@),
    }
}

/// The next step: the next challenge script, then all challenge scripts combined
/// (when there is any), then the last resort.
pub open spec fn advance_spec(st: SolverSpec) -> StepSpec {
    if !st.combined_tried {
        match next_challenge(st.scripts, st.next) {
            Some(j) => {
                let msg = "script "@ + decimal(j as nat) + " looks like a challenge ("@ + decimal(
                    byte_len(st.scripts[j]),
                ) + " bytes)\n"@;
                let st2 = SolverSpec {
                    result: debug_add(st.result, msg),
                    next: j + 1,
                    current: j,
                    ..st
                };
                StepSpec::Evaluate(st2, call_of(st2, st.scripts[j]))
            },
            None => {
                let comb = combined_spec(st.scripts);
                if comb.len() > 0 {
                    let st2 = SolverSpec {
                        result: debug_add(st.result, "trying combined script approach\n"@),
                        combined_tried: true,
                        ..st
                    };
                    StepSpec::Evaluate(st2, call_of(st2, comb))
                } else {
                    StepSpec::Done(finish_spec(st))
                }
            },
        }
    } else {
        StepSpec::Done(finish_spec(st))
    }
}

/// `label`, the output cut to 200 bytes and a line break, when the output is not empty.
pub open spec fn output_note(label: Seq<char>, out: Seq<char>) -> Seq<char> {
    if out.len() > 0 {
        label + cut200(out) + "\n"@
    } else {
        Seq::empty()
    }
}

/// The step after the evaluation that `st` handed out ended with `outcome`: stop
/// with the cookie when the script set one, else go on.
pub open spec fn resume_spec(st: SolverSpec, outcome: Result<(Seq<char>, Seq<char>), Seq<char>>) -> StepSpec {
    if !st.combined_tried {
        match outcome {
            Ok((out, cookie)) => {
                if cookie.len() > 0 {
                    StepSpec::Done(
                        debug_add(
                            ResultSpec { cookie: Some(cookie), ..st.result },
                            "challenge solved via js-lite\n"@ + output_note("script output: "@, out),
                        ),
                    )
                } else {
                    advance_spec(
                        SolverSpec {
                            result: debug_add(
                                st.result,
                                "script ran but no cookie was set\n"@ + output_note("output: "@, out),
                            ),
                            ..st
                        },
                    )
                }
            },
            Err(e) => advance_spec(
                SolverSpec {
                    result: debug_add(
                        st.result,
                        "script "@ + decimal(st.current as nat) + " failed: "@ + cut200(e) + "\n"@,
                    ),
                    ..st
                },
            ),
        }
    } else {
        match outcome {
            Ok((_, cookie)) => {
                if cookie.len() > 0 {
                    StepSpec::Done(
                        debug_add(
                            ResultSpec { cookie: Some(cookie), ..st.result },
                            "solved via combined scripts\n"@,
                        ),
                    )
                } else {
                    StepSpec::Done(finish_spec(st))
                }
            },
            Err(e) => StepSpec::Done(
                finish_spec(
                    SolverSpec {
                        result: debug_add(
                            st.result,
                            "combined script failed: "@ + cut200(e) + "\n"@,
                        ),
                        ..st
                    },
                ),
            ),
        }
    }
}

/// The outcome texts that go into the debug info can be cut at 200 bytes.
pub open spec fn outcome_ok(st: SolverSpec, outcome: Result<(Seq<char>, Seq<char>), Seq<char>>) -> bool {
    match outcome {
        Ok((out, _)) => st.combined_tried || cut_ok(out, 200),
        Err(e) => cut_ok(e, 200),
    }
}

/// The first step on a page: nothing to do unless it is a challenge page; else
/// record its scripts and challenge form, and go on.
pub open spec fn solve_spec(
    html: Seq<char>,
    hostname: Seq<char>,
    path: Seq<char>,
    existing_cookies: Seq<char>,
) -> StepSpec {
    if !is_challenge_page(html) {
        StepSpec::Done(
            ResultSpec {
                is_challenge: false,
                cookie: None,
                submit_url: None,
                form_fields: Seq::empty(),
                debug_info: "not a Cloudflare challenge page"@,
            },
        )
    } else {
        let scripts = scripts_from(html, 0);
        let r0 = ResultSpec {
            is_challenge: true,
            cookie: None,
            submit_url: None,
            form_fields: Seq::empty(),
            debug_info: "found "@ + decimal(scripts.len()) + " script blocks\n"@,
        };
        advance_spec(
            SolverSpec {
                result: with_form_data(r0, html),
                scripts,
                html,
                next: 0,
                current: 0,
                combined_tried: false,
                existing_cookies,
                hostname,
                path,
            },
        )
    }
}

// --- Laws of the solver --------------------------------------------------

/// How many more evaluations the solver may ask for: one per script not yet
/// scanned, plus one for the combined script.
pub open spec fn evaluations_left(st: SolverSpec) -> int {
    if st.combined_tried {
        0
    } else {
        st.scripts.len() - st.next + 1
    }
}

proof fn lemma_next_challenge_found(scripts: Seq<Seq<char>>, i: int)
    requires
        0 <= i,
    ensures
        next_challenge(scripts, i) matches Some(j) ==> i <= j < scripts.len()
            && is_challenge_script_spec(scripts[j]),
    decreases scripts.len() - i,
{
    if i < scripts.len() && !is_challenge_script_spec(scripts[i]) {
        lemma_next_challenge_found(scripts, i + 1);
    }
}

/// Each evaluation the solver hands out is either a challenge script of the
/// page not handed out before (further down the page than the last one), or,
/// once, all challenge scripts combined; and it leaves the result's challenge
/// flag, cookie, submit URL and form fields as they were.
pub proof fn lemma_advance_hands_out(st: SolverSpec)
    requires
        0 <= st.next <= st.scripts.len(),
    ensures
        advance_spec(st) matches StepSpec::Evaluate(st2, call) ==> {
            &&& call == call_of(st2, call.script)
            &&& st2.scripts == st.scripts
            &&& st2.html == st.html
            &&& st2.result.is_challenge == st.result.is_challenge
            &&& st2.result.cookie == st.result.cookie
            &&& st2.result.submit_url == st.result.submit_url
            &&& st2.result.form_fields == st.result.form_fields
            &&& ((!st2.combined_tried && st.next <= st2.current && st2.next == st2.current + 1
                <= st.scripts.len() && call.script == st.scripts[st2.current]
                && is_challenge_script_spec(call.script)) || (st2.combined_tried && !st.combined_tried
                && call.script == combined_spec(st.scripts)))
            &&& evaluations_left(st2) < evaluations_left(st)
            &&& 0 <= st2.next <= st2.scripts.len()
        },
{
    lemma_next_challenge_found(st.scripts, st.next);
}

/// Resuming never asks for more evaluations than are left: the solver ends
/// after at most one evaluation per script of the page plus one.
pub proof fn lemma_resume_progress(st: SolverSpec, outcome: Result<(Seq<char>, Seq<char>), Seq<char>>)
    requires
        0 <= st.next <= st.scripts.len(),
    ensures
        resume_spec(st, outcome) matches StepSpec::Evaluate(st2, _) ==> evaluations_left(st2)
            < evaluations_left(st) && 0 <= st2.next <= st2.scripts.len(),
{
    if !st.combined_tried {
        match outcome {
            Ok((out, cookie)) => {
                if cookie.len() == 0 {
                    lemma_advance_hands_out(
                        SolverSpec {
                            result: debug_add(
                                st.result,
                                "script ran but no cookie was set\n"@ + output_note("output: "@, out),
                            ),
                            ..st
                        },
                    );
                }
            },
            Err(e) => {
                lemma_advance_hands_out(
                    SolverSpec {
                        result: debug_add(
                            st.result,
                            "script "@ + decimal(st.current as nat) + " failed: "@ + cut200(e) + "\n"@,
                        ),
                        ..st
                    },
                );
            },
        }
    }
}

/// When the solver stops, the result keeps the challenge flag, the submit URL
/// and the form fields it had; a cookie that an evaluation set is not empty.
pub proof fn lemma_resume_keeps_page_data(st: SolverSpec, outcome: Result<(Seq<char>, Seq<char>), Seq<char>>)
    requires
        0 <= st.next <= st.scripts.len(),
        st.result.cookie is None,
    ensures
        resume_spec(st, outcome) matches StepSpec::Done(r) ==> {
            &&& r.is_challenge == st.result.is_challenge
            &&& r.submit_url == st.result.submit_url
            &&& r.form_fields == st.result.form_fields
            &&& (outcome matches Ok((_, ck)) ==> (ck.len() > 0 ==> r.cookie == Some(ck)))
        },
{
}

/// A page that is not a challenge page needs no evaluation, and its result says so.
pub proof fn lemma_not_a_challenge(html: Seq<char>, hostname: Seq<char>, path: Seq<char>, cookies: Seq<char>)
    ensures
        !is_challenge_page(html) ==> (solve_spec(html, hostname, path, cookies) matches StepSpec::Done(
            r,
        ) && !r.is_challenge && r.cookie is None),
{
}

// --- The solver from start to end ----------------------------------------

/// The step reached from `step` when the evaluations it hands out end, one
/// after the other, with `outcomes` (until the solver stops or the outcomes run out).
pub open spec fn run_steps(step: StepSpec, outcomes: Seq<Result<(Seq<char>, Seq<char>), Seq<char>>>) -> StepSpec
    decreases outcomes.len(),
{
    match step {
        StepSpec::Evaluate(st, _) => if outcomes.len() > 0 {
            run_steps(resume_spec(st, outcomes[0]), outcomes.drop_first())
        } else {
            step
        },
        StepSpec::Done(_) => step,
    }
}

/// The evaluations handed out on the way from `step` with `outcomes`, in order.
pub open spec fn run_calls(step: StepSpec, outcomes: Seq<Result<(Seq<char>, Seq<char>), Seq<char>>>) -> Seq<
    CallSpec,
>
    decreases outcomes.len(),
{
    match step {
        StepSpec::Evaluate(st, call) => seq![call] + if outcomes.len() > 0 {
            run_calls(resume_spec(st, outcomes[0]), outcomes.drop_first())
        } else {
            Seq::empty()
        },
        StepSpec::Done(_) => Seq::empty(),
    }
}

/// Whether an evaluation ended with a non-empty cookie.
pub open spec fn sets_cookie(outcome: Result<(Seq<char>, Seq<char>), Seq<char>>) -> bool {
    outcome matches Ok((_, c)) && c.len() > 0
}

/// The cookie an evaluation set (empty when it failed).
pub open spec fn cookie_set(outcome: Result<(Seq<char>, Seq<char>), Seq<char>>) -> Seq<char> {
    match outcome {
        Ok((_, c)) => c,
        Err(_) => Seq::empty(),
    }
}

/// The challenge scripts among `scripts` from index `i` on, in order.
pub open spec fn challenge_scripts_from(scripts: Seq<Seq<char>>, i: int) -> Seq<Seq<char>>
    decreases scripts.len() - i,
{
    if i < 0 || i >= scripts.len() {
        Seq::empty()
    } else if is_challenge_script_spec(scripts[i]) {
        seq![scripts[i]] + challenge_scripts_from(scripts, i + 1)
    } else {
        challenge_scripts_from(scripts, i + 1)
    }
}

/// The scripts a solver still means to evaluate, in order: the challenge
/// scripts not yet scanned, then all challenge scripts combined (when there is any).
pub open spec fn scripts_left(st: SolverSpec) -> Seq<Seq<char>> {
    if st.combined_tried {
        Seq::empty()
    } else {
        challenge_scripts_from(st.scripts, st.next) + if combined_spec(st.scripts).len() > 0 {
            seq![combined_spec(st.scripts)]
        } else {
            Seq::empty()
        }
    }
}

/// The scripts evaluated for a challenge page, in order: each challenge script
/// of the page, then all of them combined (when there is any).
pub open spec fn planned_scripts(html: Seq<char>) -> Seq<Seq<char>> {
    let scripts = scripts_from(html, 0);
    challenge_scripts_from(scripts, 0) + if combined_spec(scripts).len() > 0 {
        seq![combined_spec(scripts)]
    } else {
        Seq::empty()
    }
}

proof fn lemma_challenge_scripts_next(scripts: Seq<Seq<char>>, i: int)
    requires
        0 <= i,
    ensures
        match next_challenge(scripts, i) {
            Some(j) => challenge_scripts_from(scripts, i) == seq![scripts[j]] + challenge_scripts_from(
                scripts,
                j + 1,
            ),
            None => challenge_scripts_from(scripts, i) == Seq::<Seq<char>>::empty(),
        },
    decreases scripts.len() - i,
{
    if i < scripts.len() && !is_challenge_script_spec(scripts[i]) {
        lemma_challenge_scripts_next(scripts, i + 1);
    }
}

/// What a run from `advance_spec(st)` ends with, stated over `scripts_left(st)`.
spec fn run_ends_well(st: SolverSpec, outcomes: Seq<Result<(Seq<char>, Seq<char>), Seq<char>>>) -> bool {
    let step = advance_spec(st);
    let calls = run_calls(step, outcomes);
    let n = calls.len();
    let plan = scripts_left(st);
    run_steps(step, outcomes) matches StepSpec::Done(r) ==> {
        &&& n <= plan.len()
        &&& n <= outcomes.len()
        &&& forall|j: int| 0 <= j < n ==> #[trigger] calls[j] == CallSpec {
            script: plan[j],
            existing_cookies: st.existing_cookies,
            hostname: st.hostname,
            path: st.path,
        }
        &&& forall|j: int| 0 <= j < n - 1 ==> !sets_cookie(#[trigger] outcomes[j])
        &&& r.cookie == if n > 0 && sets_cookie(outcomes[n - 1]) {
            Some(cookie_set(outcomes[n - 1]))
        } else {
            inline_cookie_spec(st.html)
        }
        &&& !(n > 0 && sets_cookie(outcomes[n - 1])) ==> n == plan.len()
        &&& r.is_challenge == st.result.is_challenge
        &&& r.submit_url == st.result.submit_url
        &&& r.form_fields == st.result.form_fields
    }
}

proof fn lemma_run_from(st: SolverSpec, outcomes: Seq<Result<(Seq<char>, Seq<char>), Seq<char>>>)
    requires
        0 <= st.next <= st.scripts.len(),
        st.result.cookie is None,
    ensures
        run_ends_well(st, outcomes),
    decreases outcomes.len(),
{
    lemma_challenge_scripts_next(st.scripts, st.next);
    lemma_advance_hands_out(st);
    let step = advance_spec(st);
    match step {
        StepSpec::Done(r) => {
            assert(run_calls(step, outcomes) =~= Seq::<CallSpec>::empty());
            assert(run_steps(step, outcomes) == step);
            if !st.combined_tried {
                assert(next_challenge(st.scripts, st.next) is None);
                assert(combined_spec(st.scripts).len() == 0);
            }
            assert(scripts_left(st).len() == 0);
            assert(r.cookie == inline_cookie_spec(st.html));
            assert(r.is_challenge == st.result.is_challenge);
            assert(r.submit_url == st.result.submit_url);
            assert(r.form_fields == st.result.form_fields);
            let calls = run_calls(step, outcomes);
            assert(calls.len() == 0);
            assert(!(calls.len() > 0 && sets_cookie(outcomes[calls.len() - 1])));
            assert(calls.len() == scripts_left(st).len());
            assert(run_ends_well(st, outcomes));
        },
        StepSpec::Evaluate(st2, call) => {
            if outcomes.len() > 0 {
                let o = outcomes[0];
                let rest = outcomes.drop_first();
                let next = resume_spec(st2, o);
                assert(run_calls(step, outcomes) == seq![call] + run_calls(next, rest));
                if !st2.combined_tried && !sets_cookie(o) {
                    let st3 = match o {
                        Ok((out, _)) => SolverSpec {
                            result: debug_add(
                                st2.result,
                                "script ran but no cookie was set\n"@ + output_note("output: "@, out),
                            ),
                            ..st2
                        },
                        Err(e) => SolverSpec {
                            result: debug_add(
                                st2.result,
                                "script "@ + decimal(st2.current as nat) + " failed: "@ + cut200(e) + "\n"@,
                            ),
                            ..st2
                        },
                    };
                    assert(next == advance_spec(st3));
                    lemma_run_from(st3, rest);
                    assert(scripts_left(st) == seq![call.script] + scripts_left(st3));
                    let calls = run_calls(step, outcomes);
                    let calls3 = run_calls(next, rest);
                    if run_steps(step, outcomes) is Done {
                        assert forall|j: int| 0 <= j < calls.len() - 1 implies !sets_cookie(#[trigger] outcomes[j]) by {
                            if j > 0 {
                                assert(outcomes[j] == rest[j - 1]);
                            }
                        }
                        assert forall|j: int| 0 <= j < calls.len() implies #[trigger] calls[j] == CallSpec {
                            script: scripts_left(st)[j],
                            existing_cookies: st.existing_cookies,
                            hostname: st.hostname,
                            path: st.path,
                        } by {
                            if j > 0 {
                                assert(calls[j] == calls3[j - 1]);
                            }
                        }
                        if calls.len() > 1 {
                            assert(outcomes[calls.len() - 1] == rest[calls3.len() - 1]);
                        }
                    }
                } else {
                    assert(run_calls(next, rest) =~= Seq::<CallSpec>::empty());
                    assert(run_calls(step, outcomes) =~= seq![call]);
                    if st2.combined_tried {
                        assert(next_challenge(st.scripts, st.next) is None);
                        assert(scripts_left(st) =~= seq![call.script]);
                    }
                    assert(scripts_left(st)[0] == call.script);
                    assert(st2.existing_cookies == st.existing_cookies && st2.hostname == st.hostname
                        && st2.path == st.path);
                    assert(run_calls(step, outcomes)[0] == CallSpec {
                        script: scripts_left(st)[0],
                        existing_cookies: st.existing_cookies,
                        hostname: st.hostname,
                        path: st.path,
                    });
                    assert(run_steps(next, rest) == next);
                    assert(run_steps(step, outcomes) == next);
                    assert(scripts_left(st).len() >= 1);
                    if let StepSpec::Done(r) = next {
                        assert(r.is_challenge == st.result.is_challenge);
                        assert(r.submit_url == st.result.submit_url);
                        assert(r.form_fields == st.result.form_fields);
                        assert(r.cookie == if sets_cookie(o) {
                            Some(cookie_set(o))
                        } else {
                            inline_cookie_spec(st.html)
                        });
                    }
                    assert(run_ends_well(st, outcomes));
                }
            } else {
                assert(run_ends_well(st, outcomes));
            }
        },
    }
}

/// A solver from start to end, whatever the evaluations it hands out end with.
/// A page that is not a challenge page is answered at once, with no evaluation.
/// On a challenge page the result is a challenge, with the page's challenge form
/// as submit URL and form fields; the evaluations come in the order of
/// [`planned_scripts`] (each challenge script of the page, then all of them
/// combined) until one sets a cookie, which is then the result's cookie; when
/// none does, all of them were tried and the cookie is the one assigned inline
/// in the page, if any.
pub proof fn lemma_solver_end_to_end(
    html: Seq<char>,
    hostname: Seq<char>,
    path: Seq<char>,
    cookies: Seq<char>,
    outcomes: Seq<Result<(Seq<char>, Seq<char>), Seq<char>>>,
)
    ensures
        ({
            let start = solve_spec(html, hostname, path, cookies);
            let calls = run_calls(start, outcomes);
            let n = calls.len();
            let plan = planned_scripts(html);
            run_steps(start, outcomes) matches StepSpec::Done(r) ==> {
                &&& r.is_challenge == is_challenge_page(html)
                &&& !is_challenge_page(html) ==> n == 0 && r.cookie is None && r.submit_url is None
                    && r.form_fields.len() == 0 && r.debug_info == "not a Cloudflare challenge page"@
                &&& is_challenge_page(html) ==> {
                    &&& match form_data_spec(html) {
                        Some((url, fields)) => r.submit_url == url && r.form_fields == fields,
                        None => r.submit_url is None && r.form_fields.len() == 0,
                    }
                    &&& n <= plan.len()
                    &&& n <= outcomes.len()
                    &&& forall|j: int| 0 <= j < n ==> #[trigger] calls[j] == CallSpec {
                        script: plan[j],
                        existing_cookies: cookies,
                        hostname,
                        path,
                    }
                    &&& forall|j: int| 0 <= j < n - 1 ==> !sets_cookie(#[trigger] outcomes[j])
                    &&& r.cookie == if n > 0 && sets_cookie(outcomes[n - 1]) {
                        Some(cookie_set(outcomes[n - 1]))
                    } else {
                        inline_cookie_spec(html)
                    }
                    &&& !(n > 0 && sets_cookie(outcomes[n - 1])) ==> n == plan.len()
                }
            }
        }),
{
    if is_challenge_page(html) {
        let scripts = scripts_from(html, 0);
        let r0 = ResultSpec {
            is_challenge: true,
            cookie: None,
            submit_url: None,
            form_fields: Seq::empty(),
            debug_info: "found "@ + decimal(scripts.len()) + " script blocks\n"@,
        };
        let st0 = SolverSpec {
            result: with_form_data(r0, html),
            scripts,
            html,
            next: 0,
            current: 0,
            combined_tried: false,
            existing_cookies: cookies,
            hostname,
            path,
        };
        lemma_run_from(st0, outcomes);
        match form_data_spec(html) {
            Some((url, fields)) => {
                assert(Seq::<(Seq<char>, Seq<char>)>::empty() + fields =~= fields);
            },
            None => {},
        }
    } else {
        assert(run_calls(solve_spec(html, hostname, path, cookies), outcomes) =~= Seq::<CallSpec>::empty());
    }
}

// --- The solver: implementation ------------------------------------------

/// A challenge solver waiting for the outcome of the evaluation it handed out.
pub struct ChallengeSolver {
    result: ChallengeResult,
    scripts: Vec<Vec<char>>,
    html: Vec<char>,
    next: usize,
    current: usize,
    combined_tried: bool,
    existing_cookies: String,
    hostname: String,
    path: String,
}

/// What to do next: evaluate a script and hand its outcome to
/// [`ChallengeSolver::resume`], or stop with a result.
pub enum SolveStep {
    Evaluate(ChallengeSolver, JsCall),
    Done(ChallengeResult),
}

impl View for ChallengeSolver {
    type V = SolverSpec;

    closed spec fn view(&self) -> SolverSpec {
        SolverSpec {
            result: self.result@,
            scripts: vv(self.scripts@),
            html: self.html@,
            next: self.next as int,
            current: self.current as int,
            combined_tried: self.combined_tried,
            existing_cookies: self.existing_cookies@,
            hostname: self.hostname@,
            path: self.path@,
        }
    }
}

impl View for SolveStep {
    type V = StepSpec;

    open spec fn view(&self) -> StepSpec {
        match self {
            SolveStep::Evaluate(st, call) => StepSpec::Evaluate(st@, call@),
            SolveStep::Done(r) => StepSpec::Done(r@),
        }
    }
}

/// Appends `t` to a string.
fn push_str_chars(s: &mut String, t: &[char])
    ensures
        final(s)@ == old(s)@ + t@,
{
    let mut i: usize = 0;
    while i < t.len()
        invariant
            i <= t@.len(),
            s@ == old(s)@ + t@.subrange(0, i as int),
        decreases t@.len() - i,
    {
        crate::chars::string_push(s, t[i]);
        i += 1;
        assert(s@ =~= old(s)@ + t@.subrange(0, i as int));
    }
    assert(t@.subrange(0, t@.len() as int) =~= t@);
}

/// Appends `t` to the debug info.
fn debug_push(r: &mut ChallengeResult, t: &[char])
    ensures
        final(r)@ == debug_add(old(r)@, t@),
{
    push_str_chars(&mut r.debug_info, t);
}

/// The concatenation of two sequences.
fn concat2(a: &[char], b: &[char]) -> (res: Vec<char>)
    ensures
        res@ == a@ + b@,
{
    let mut v: Vec<char> = Vec::new();
    push_all(&mut v, a);
    push_all(&mut v, b);
    assert(v@ =~= a@ + b@);
    v
}

/// `label`, the output cut to 200 bytes and a line break, when the output is not empty.
fn output_note_exec(label: &str, out: &[char]) -> (res: Vec<char>)
    ensures
        res@ == output_note(label@, out@),
{
    if out.len() > 0 {
        concat3(&to_chars(label), &cut(out, 200), &to_chars("\n"))
    } else {
        Vec::new()
    }
}

/// The concatenation of three sequences.
fn concat3(a: &[char], b: &[char], c: &[char]) -> (res: Vec<char>)
    ensures
        res@ == a@ + b@ + c@,
{
    let mut v: Vec<char> = Vec::new();
    push_all(&mut v, a);
    push_all(&mut v, b);
    push_all(&mut v, c);
    assert(v@ =~= a@ + b@ + c@);
    v
}

/// Records the challenge form of the page.
fn extract_form_data(html: &[char], result: &mut ChallengeResult)
    ensures
        final(result)@ == with_form_data(old(result)@, html@),
{
    let low = to_lower(html);
    let html_len = html.len();
    let fs = match find_ignoring_case(&low, &to_chars("<form"), 0) {
        Some(x) => x,
        None => {
            return;
        },
    };
    let gt = index_of(&low, fs, '>');
    proof {
        lemma_scan_to_bounds(low@, fs as int, '>');
    }
    if gt >= html_len {
        return;
    }
    let form_tag = slice_of(html, fs, gt + 1);
    if let Some(action) = extract_attribute(&form_tag, &to_chars("action")) {
        result.submit_url = Some(from_chars(&action));
    }
    let close = to_chars("</form");
    let form_end = match find_ignoring_case(&low, &close, gt) {
        Some(e) => e,
        None => html_len,
    };
    proof {
        reveal_strlit("</form");
        if find_ic(low@, close@, gt as int) is Some {
            lemma_find_from_bounds(low@, close@, gt as int);
            if form_end == gt {
                assert(low@.subrange(gt as int, gt + close@.len())[0] == close@[0]);
            }
        }
    }
    let body = slice_of(html, gt + 1, form_end);
    let body_low = to_lower(&body);
    let fields = extract_hidden_inputs(&body, &body_low, 0);
    let ghost m = fields@.map_values(|p: (Vec<char>, Vec<char>)| (p.0@, p.1@));
    let mut extra: Vec<(String, String)> = Vec::new();
    let mut k: usize = 0;
    while k < fields.len()
        invariant
            k <= fields@.len(),
            m == fields@.map_values(|p: (Vec<char>, Vec<char>)| (p.0@, p.1@)),
            fields_view(extra@) == m.take(k as int),
        decreases fields@.len() - k,
    {
        let name = from_chars(&fields[k].0);
        let value = from_chars(&fields[k].1);
        let ghost cur = fields_view(extra@);
        extra.push((name, value));
        assert(fields_view(extra@) =~= cur.push((fields@[k as int].0@, fields@[k as int].1@)));
        assert(m.take(k + 1) =~= m.take(k as int).push(m[k as int]));
        k += 1;
    }
    assert(m.take(fields@.len() as int) =~= m);
    let ghost before = fields_view(result.form_fields@);
    let ghost extra_view = fields_view(extra@);
    result.form_fields.append(&mut extra);
    assert(fields_view(result.form_fields@) =~= before + extra_view);
}

proof fn lemma_trim_sub(s: Seq<char>)
    ensures
        exists|a: int, b: int| 0 <= a <= b <= s.len() && trim(s) == s.subrange(a, b),
{
    crate::chars::lemma_skip_ws_bounds(s, 0);
    let a = crate::chars::skip_ws(s, 0);
    crate::chars::lemma_back_ws_bounds(s, a, s.len() as int);
    let b = crate::chars::back_ws(s, a, s.len() as int);
    assert(trim(s) == s.subrange(a, b));
}

proof fn lemma_scripts_bounded(html: Seq<char>, pos: int)
    requires
        0 <= pos,
    ensures
        forall|k: int|
            0 <= k < scripts_from(html, pos).len() ==> byte_len(#[trigger] scripts_from(html, pos)[k])
                <= byte_len(html),
    decreases html.len() - pos,
{
    let low = lower(html);
    let r = scripts_from(html, pos);
    match find_ic(low, "<script"@, pos) {
        None => {},
        Some(start) => {
            let gt = scan_to(low, start, '>');
            if start < pos || gt < start || gt >= html.len() {
            } else {
                let tag_end = gt + 1;
                let tag = html.subrange(start, tag_end);
                if contains(tag, "src="@) || contains(tag, "src ="@) {
                    lemma_scripts_bounded(html, tag_end);
                    assert(r == scripts_from(html, tag_end));
                } else {
                    match find_ic(low, "</script"@, tag_end) {
                        None => {},
                        Some(se) => {
                            if se >= tag_end {
                                lemma_find_from_bounds(low, "</script"@, tag_end);
                                let mid = html.subrange(tag_end, se);
                                let body = trim(mid);
                                lemma_trim_sub(mid);
                                let (a, b) = choose|a: int, b: int|
                                    0 <= a <= b <= mid.len() && trim(mid) == mid.subrange(a, b);
                                assert(body =~= html.subrange(tag_end + a, tag_end + b));
                                lemma_byte_len_sub(html, tag_end + a, tag_end + b);
                                let this: Seq<Seq<char>> = if body.len() > 0 {
                                    seq![body]
                                } else {
                                    Seq::empty()
                                };
                                if se + 9 <= html.len() {
                                    lemma_scripts_bounded(html, se + 9);
                                    let rest = scripts_from(html, se + 9);
                                    assert(r == this + rest);
                                    assert forall|k: int| 0 <= k < r.len() implies byte_len(
                                        #[trigger] r[k],
                                    ) <= byte_len(html) by {
                                        if k >= this.len() {
                                            assert(r[k] == rest[k - this.len()]);
                                        }
                                    }
                                } else {
                                    assert(r == this + Seq::<Seq<char>>::empty());
                                    assert forall|k: int| 0 <= k < r.len() implies byte_len(
                                        #[trigger] r[k],
                                    ) <= byte_len(html) by {
                                        assert(r[k] == body);
                                    }
                                }
                            }
                        },
                    }
                }
            }
        },
    }
}

impl ChallengeSolver {
    #[verifier::type_invariant]
    spec fn inv(self) -> bool {
        &&& self.next <= self.scripts@.len()
        &&& forall|k: int|
            0 <= k < self.scripts@.len() ==> byte_len(#[trigger] self.scripts@[k]@) <= usize::MAX
    }

    /// The last resort: a cookie assigned directly in the page, else give up.
    fn finish(self) -> (res: ChallengeResult)
        ensures
            res@ == finish_spec(self@),
    {
        let mut result = self.result;
        match try_extract_inline_cookie(&self.html) {
            Some(cookie) => {
                result.cookie = Some(from_chars(&cookie));
                debug_push(&mut result, &to_chars("extracted cookie from inline pattern\n"));
            },
            None => {
                debug_push(&mut result, &to_chars("could not solve challenge\n"));
            },
        }
        result
    }

    /// The next step: the next challenge script, then all of them combined, then
    /// the last resort.
    fn advance(self) -> (res: SolveStep)
        ensures
            res@ == advance_spec(self@),
    {
        proof {
            use_type_invariant(&self);
        }
        if self.combined_tried {
            return SolveStep::Done(self.finish());
        }
        let ghost st = self@;
        let mut j = self.next;
        while j < self.scripts.len() && !is_challenge_script(&self.scripts[j])
            invariant
                self.next <= j <= self.scripts@.len(),
                st == self@,
                next_challenge(st.scripts, j as int) == next_challenge(st.scripts, st.next),
            decreases self.scripts@.len() - j,
        {
            assert(st.scripts[j as int] == self.scripts@[j as int]@);
            j += 1;
        }
        if j < self.scripts.len() {
            assert(st.scripts[j as int] == self.scripts@[j as int]@);
            let len_text = decimal_exec(utf8_len(&self.scripts[j]));
            let head = concat3(&to_chars("script "), &decimal_exec(j), &to_chars(" looks like a challenge ("));
            let msg = concat3(&head, &len_text, &to_chars(" bytes)\n"));
            let script = from_chars(&self.scripts[j]);
            let mut result = self.result;
            debug_push(&mut result, &msg);
            let call = JsCall {
                script,
                existing_cookies: self.existing_cookies.clone(),
                hostname: self.hostname.clone(),
                path: self.path.clone(),
            };
            let next_state = ChallengeSolver {
                result,
                scripts: self.scripts,
                html: self.html,
                next: j + 1,
                current: j,
                combined_tried: false,
                existing_cookies: self.existing_cookies,
                hostname: self.hostname,
                path: self.path,
            };
            return SolveStep::Evaluate(next_state, call);
        }
        let combined = combine_challenge_scripts(&self.scripts);
        if combined.len() > 0 {
            let mut result = self.result;
            debug_push(&mut result, &to_chars("trying combined script approach\n"));
            let call = JsCall {
                script: from_chars(&combined),
                existing_cookies: self.existing_cookies.clone(),
                hostname: self.hostname.clone(),
                path: self.path.clone(),
            };
            let next_state = ChallengeSolver {
                result,
                scripts: self.scripts,
                html: self.html,
                next: self.next,
                current: self.current,
                combined_tried: true,
                existing_cookies: self.existing_cookies,
                hostname: self.hostname,
                path: self.path,
            };
            return SolveStep::Evaluate(next_state, call);
        }
        SolveStep::Done(self.finish())
    }

    /// Whether this solver can take `outcome`: the text of it that goes into the
    /// debug info can be cut at 200 bytes on a character boundary.
    pub fn accepts(&self, outcome: &Result<(String, String), String>) -> (res: bool)
        ensures
            res == outcome_ok(self@, outcome_view(*outcome)),
    {
        match outcome {
            Ok((out, _)) => self.combined_tried || cuts_cleanly(&to_chars(out.as_str()), 200),
            Err(e) => cuts_cleanly(&to_chars(e.as_str()), 200),
        }
    }

    /// Continue after the evaluation this solver handed out ended with `outcome`:
    /// `Ok((output, cookie))` or `Err(message)`.
    pub fn resume(self, outcome: Result<(String, String), String>) -> (res: SolveStep)
        requires
            outcome_ok(self@, outcome_view(outcome)),
        ensures
            res@ == resume_spec(self@, outcome_view(outcome)),
    {
        proof {
            use_type_invariant(&self);
        }
        let ChallengeSolver {
            result,
            scripts,
            html,
            next,
            current,
            combined_tried,
            existing_cookies,
            hostname,
            path,
        } = self;
        let mut result = result;
        if !combined_tried {
            match outcome {
                Ok((output, cookie)) => {
                    let out = to_chars(output.as_str());
                    if !cookie.as_str().is_empty() {
                        result.cookie = Some(cookie);
                        let note = output_note_exec("script output: ", &out);
                        let msg = concat2(&to_chars("challenge solved via js-lite\n"), &note);
                        debug_push(&mut result, &msg);
                        return SolveStep::Done(result);
                    }
                    let note = output_note_exec("output: ", &out);
                    let msg = concat2(&to_chars("script ran but no cookie was set\n"), &note);
                    debug_push(&mut result, &msg);
                },
                Err(e) => {
                    let head = concat3(&to_chars("script "), &decimal_exec(current), &to_chars(" failed: "));
                    let msg = concat3(&head, &cut(&to_chars(e.as_str()), 200), &to_chars("\n"));
                    debug_push(&mut result, &msg);
                },
            }
            let st = ChallengeSolver {
                result,
                scripts,
                html,
                next,
                current,
                combined_tried,
                existing_cookies,
                hostname,
                path,
            };
            st.advance()
        } else {
            match outcome {
                Ok((_output, cookie)) => {
                    if !cookie.as_str().is_empty() {
                        result.cookie = Some(cookie);
                        debug_push(&mut result, &to_chars("solved via combined scripts\n"));
                        return SolveStep::Done(result);
                    }
                },
                Err(e) => {
                    let msg = concat3(&to_chars("combined script failed: "), &cut(&to_chars(e.as_str()), 200), &to_chars("\n"));
                    debug_push(&mut result, &msg);
                },
            }
            let st = ChallengeSolver {
                result,
                scripts,
                html,
                next,
                current,
                combined_tried,
                existing_cookies,
                hostname,
                path,
            };
            SolveStep::Done(st.finish())
        }
    }
}

/// Start solving a Cloudflare challenge from the HTML content.
///
/// # Arguments
/// * `html` - The full HTML of the challenge page
/// * `hostname` - The hostname being accessed (e.g., "console.anthropic.com")
/// * `path` - The path being accessed (e.g., "/")
/// * `existing_cookies` - Any cookies already set for the domain
///
/// # Returns
/// Either the final [`ChallengeResult`], or a script to evaluate together
/// with the solver to resume with its outcome.
pub fn solve_challenge(html: &str, hostname: &str, path: &str, existing_cookies: &str) -> (res: SolveStep)
    requires
        byte_len(html@) <= usize::MAX,
        is_challenge_page(html@) ==> scripts_ok(html@, 0),
    ensures
        res@ == solve_spec(html@, hostname@, path@, existing_cookies@),
{
    if !is_cloudflare_challenge(html) {
        let r = ChallengeResult {
            is_challenge: false,
            cookie: None,
            submit_url: None,
            form_fields: Vec::new(),
            debug_info: "not a Cloudflare challenge page".to_owned(),
        };
        assert(r@.form_fields =~= Seq::<(Seq<char>, Seq<char>)>::empty());
        return SolveStep::Done(r);
    }
    let cs = to_chars(html);
    let scripts = extract_scripts(&cs);
    proof {
        lemma_scripts_bounded(html@, 0);
        assert forall|k: int| 0 <= k < scripts@.len() implies byte_len(#[trigger] scripts@[k]@) <= usize::MAX by {
            assert(scripts@[k]@ == vv(scripts@)[k]);
        }
    }
    let mut debug_info = String::new();
    let msg = concat3(&to_chars("found "), &decimal_exec(scripts.len()), &to_chars(" script blocks\n"));
    push_str_chars(&mut debug_info, &msg);
    let mut result = ChallengeResult {
        is_challenge: true,
        cookie: None,
        submit_url: None,
        form_fields: Vec::new(),
        debug_info,
    };
    assert(result@.form_fields =~= Seq::<(Seq<char>, Seq<char>)>::empty());
    extract_form_data(&cs, &mut result);
    let st = ChallengeSolver {
        result,
        scripts,
        html: cs,
        next: 0,
        current: 0,
        combined_tried: false,
        existing_cookies: existing_cookies.to_owned(),
        hostname: hostname.to_owned(),
        path: path.to_owned(),
    };
    st.advance()
}

// ---------------------------------------------------------------------------
// High-level API for the transport layer
// ---------------------------------------------------------------------------

/// Cookie jar entry for Cloudflare clearance.
pub struct CloudflareCookie {
    /// The full cookie string (e.g., "cf_clearance=abc123")
    pub cookie: String,
    /// The domain it applies to.
    pub domain: String,
}

/// A [`CloudflareCookie`], as sequences of characters.
pub struct CookieSpec {
    pub cookie: Seq<char>,
    pub domain: Seq<char>,
}

impl View for CloudflareCookie {
    type V = CookieSpec;

    open spec fn view(&self) -> CookieSpec {
        CookieSpec { cookie: self.cookie@, domain: self.domain@ }
    }
}

/// A response handler waiting for the outcome of the evaluation it handed out.
pub struct CloudflareHandler {
    solver: ChallengeSolver,
    hostname: String,
}

impl View for CloudflareHandler {
    type V = (SolverSpec, Seq<char>);

    closed spec fn view(&self) -> (SolverSpec, Seq<char>) {
        (self.solver@, self.hostname@)
    }
}

/// What to do next with a response: evaluate a script and hand its outcome to
/// [`CloudflareHandler::resume`], or stop with the clearance cookie, if any.
pub enum CloudflareStep {
    Evaluate(CloudflareHandler, JsCall),
    Done(Option<CloudflareCookie>),
}

/// A [`CloudflareStep`], as sequences of characters.
pub enum CloudflareStepSpec {
    Evaluate(SolverSpec, Seq<char>, CallSpec),
    Done(Option<CookieSpec>),
}

impl View for CloudflareStep {
    type V = CloudflareStepSpec;

    open spec fn view(&self) -> CloudflareStepSpec {
        match self {
            CloudflareStep::Evaluate(h, call) => CloudflareStepSpec::Evaluate(h@.0, h@.1, call@),
            CloudflareStep::Done(c) => CloudflareStepSpec::Done(
                match c {
                    Some(c) => Some(c@),
                    None => None,
                },
            ),
        }
    }
}

/// The challenge page a response carries: only 403 and 503 responses whose body
/// is valid UTF-8 and looks like a challenge page.
pub open spec fn challenge_page_of(status: u16, body: Seq<u8>) -> Option<Seq<char>> {
    if status != 403 && status != 503 {
        None
    } else if !valid_utf8(body) {
        None
    } else if !is_challenge_page(decode_utf8(body)) {
        None
    } else {
        Some(decode_utf8(body))
    }
}

/// A solver step seen from the transport layer: the cookie of the final result,
/// for the host that was accessed.
pub open spec fn lift(step: StepSpec, hostname: Seq<char>) -> CloudflareStepSpec {
    match step {
        StepSpec::Evaluate(st, call) => CloudflareStepSpec::Evaluate(st, hostname, call),
        StepSpec::Done(r) => CloudflareStepSpec::Done(
            match r.cookie {
                Some(c) => Some(CookieSpec { cookie: c, domain: hostname }),
                None => None,
            },
        ),
    }
}

/// The first step on a response.
pub open spec fn handle_spec(
    status: u16,
    body: Seq<u8>,
    hostname: Seq<char>,
    path: Seq<char>,
    existing_cookies: Seq<char>,
) -> CloudflareStepSpec {
    match challenge_page_of(status, body) {
        None => CloudflareStepSpec::Done(None),
        Some(html) => lift(solve_spec(html, hostname, path, existing_cookies), hostname),
    }
}

/// `core::str::from_utf8`: the text that `bytes` encode, or nothing when they are
/// not valid UTF-8. The contract claims what the function documents: it succeeds
/// exactly on valid UTF-8, and then the text is the decoding of the bytes.
#[verifier::external_body]
fn text_of_bytes(bytes: &[u8]) -> (res: Option<&str>)
    ensures
        match res {
            Some(s) => valid_utf8(bytes@) && s@ == decode_utf8(bytes@),
            None => !valid_utf8(bytes@),
        },
{
    match core::str::from_utf8(bytes) {
        Ok(s) => Some(s),
        Err(_) => None,
    }
}

/// A solver step, seen from the transport layer.
fn lift_step(step: SolveStep, hostname: String) -> (res: CloudflareStep)
    ensures
        res@ == lift(step@, hostname@),
{
    match step {
        SolveStep::Evaluate(solver, call) => CloudflareStep::Evaluate(
            CloudflareHandler { solver, hostname },
            call,
        ),
        SolveStep::Done(result) => match result.cookie {
            Some(cookie) => CloudflareStep::Done(Some(CloudflareCookie { cookie, domain: hostname })),
            None => CloudflareStep::Done(None),
        },
    }
}

/// Check if a response indicates a Cloudflare challenge and start solving it.
///
/// This is the main entry point for HTTP clients. When the steps end with
/// `Some(cookie)`, the client should:
/// 1. Add the cookie to the request headers
/// 2. Re-fetch the original URL
///
/// # Arguments
/// * `status` - HTTP status code of the response
/// * `body` - Response body (HTML)
/// * `hostname` - The hostname being accessed
/// * `path` - The path being accessed
/// * `existing_cookies` - Any cookies already set for the domain
pub fn handle_cloudflare_response(
    status: u16,
    body: &[u8],
    hostname: &str,
    path: &str,
    existing_cookies: &str,
) -> (res: CloudflareStep)
    requires
        challenge_page_of(status, body@) matches Some(html) ==> scripts_ok(html, 0),
    ensures
        res@ == handle_spec(status, body@, hostname@, path@, existing_cookies@),
{
    // Cloudflare challenges typically return 403 or 503
    if status != 403 && status != 503 {
        return CloudflareStep::Done(None);
    }
    let html = match text_of_bytes(body) {
        Some(s) => s,
        None => {
            return CloudflareStep::Done(None);
        },
    };
    if !is_cloudflare_challenge(html) {
        return CloudflareStep::Done(None);
    }
    proof {
        decode_utf8_encode_utf8(body@);
        assert(body@.len() == body.len());
    }
    let step = solve_challenge(html, hostname, path, existing_cookies);
    lift_step(step, hostname.to_owned())
}

/// Only 403 and 503 responses can carry a challenge: any other response needs
/// no evaluation and yields no cookie.
pub proof fn lemma_only_challenge_statuses(
    status: u16,
    body: Seq<u8>,
    hostname: Seq<char>,
    path: Seq<char>,
    cookies: Seq<char>,
)
    ensures
        status != 403 && status != 503 ==> handle_spec(status, body, hostname, path, cookies)
            == CloudflareStepSpec::Done(None),
        !valid_utf8(body) ==> handle_spec(status, body, hostname, path, cookies)
            == CloudflareStepSpec::Done(None),
{
}

/// A clearance cookie is always for the host that was accessed, and carries
/// the cookie of the solver's result.
pub proof fn lemma_cookie_for_host(step: StepSpec, hostname: Seq<char>)
    ensures
        lift(step, hostname) matches CloudflareStepSpec::Done(Some(c)) ==> (c.domain == hostname
            && (step matches StepSpec::Done(r) && r.cookie == Some(c.cookie))),
{
}

/// The step reached from a response step `step` when the evaluations it hands
/// out end, one after the other, with `outcomes`.
pub open spec fn run_response(
    step: CloudflareStepSpec,
    outcomes: Seq<Result<(Seq<char>, Seq<char>), Seq<char>>>,
) -> CloudflareStepSpec
    decreases outcomes.len(),
{
    match step {
        CloudflareStepSpec::Evaluate(st, hostname, _) => if outcomes.len() > 0 {
            run_response(lift(resume_spec(st, outcomes[0]), hostname), outcomes.drop_first())
        } else {
            step
        },
        CloudflareStepSpec::Done(_) => step,
    }
}

proof fn lemma_run_lift(step: StepSpec, hostname: Seq<char>, outcomes: Seq<Result<(Seq<char>, Seq<char>), Seq<char>>>)
    ensures
        run_response(lift(step, hostname), outcomes) == lift(run_steps(step, outcomes), hostname),
    decreases outcomes.len(),
{
    if let StepSpec::Evaluate(st, _) = step {
        if outcomes.len() > 0 {
            lemma_run_lift(resume_spec(st, outcomes[0]), hostname, outcomes.drop_first());
        }
    }
}

/// A response from start to end, whatever the evaluations end with: it is
/// answered as its page is by the solver, and it ends with a cookie exactly
/// when the solver ends with one, for the host that was accessed. A response
/// that is not a 403 or 503 carrying a challenge page in valid UTF-8 ends at
/// once with no cookie.
pub proof fn lemma_response_end_to_end(
    status: u16,
    body: Seq<u8>,
    hostname: Seq<char>,
    path: Seq<char>,
    cookies: Seq<char>,
    outcomes: Seq<Result<(Seq<char>, Seq<char>), Seq<char>>>,
)
    ensures
        run_response(handle_spec(status, body, hostname, path, cookies), outcomes) == match challenge_page_of(
            status,
            body,
        ) {
            None => CloudflareStepSpec::Done(None),
            Some(html) => lift(run_steps(solve_spec(html, hostname, path, cookies), outcomes), hostname),
        },
        challenge_page_of(status, body) matches Some(html) ==> (run_steps(
            solve_spec(html, hostname, path, cookies),
            outcomes,
        ) matches StepSpec::Done(r) ==> run_response(
            handle_spec(status, body, hostname, path, cookies),
            outcomes,
        ) == CloudflareStepSpec::Done(
            match r.cookie {
                Some(c) => Some(CookieSpec { cookie: c, domain: hostname }),
                None => None,
            },
        )),
{
    if let Some(html) = challenge_page_of(status, body) {
        lemma_run_lift(solve_spec(html, hostname, path, cookies), hostname, outcomes);
    }
}

impl CloudflareHandler {
    /// Whether this handler can take `outcome` (see [`ChallengeSolver::accepts`]).
    pub fn accepts(&self, outcome: &Result<(String, String), String>) -> (res: bool)
        ensures
            res == outcome_ok(self@.0, outcome_view(*outcome)),
    {
        self.solver.accepts(outcome)
    }

    /// Continue after the evaluation this handler handed out ended with `outcome`.
    pub fn resume(self, outcome: Result<(String, String), String>) -> (res: CloudflareStep)
        requires
            outcome_ok(self@.0, outcome_view(outcome)),
        ensures
            res@ == lift(resume_spec(self@.0, outcome_view(outcome)), self@.1),
    {
        let CloudflareHandler { solver, hostname } = self;
        lift_step(solver.resume(outcome), hostname)
    }
}

} // verus!
