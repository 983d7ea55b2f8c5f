//! Character-sequence helpers shared by the whole crate: whitespace,
//! trimming, ASCII case folding, substring search and word splitting.
//!
//! All text is handled as sequences of Unicode scalar values (`char`s).

use vstd::prelude::*;
use vstd::std_specs::iter::IteratorSpec;

verus! {

// --- Specifications ------------------------------------------------------

/// Unicode `White_Space`, the set that `char::is_whitespace` tests.
pub open spec fn is_ws(c: char) -> bool {
    ||| ('\t' <= c && c <= '\r')
    ||| c == ' '
    ||| c == '\u{85}'
    ||| c == '\u{A0}'
    ||| c == '\u{1680}'
    ||| ('\u{2000}' <= c && c <= '\u{200A}')
    ||| c == '\u{2028}'
    ||| c == '\u{2029}'
    ||| c == '\u{202F}'
    ||| c == '\u{205F}'
    ||| c == '\u{3000}'
}

/// First index at or after `i` that does not hold whitespace (or the length).
pub open spec fn skip_ws(s: Seq<char>, i: int) -> int
    decreases s.len() - i,
{
    if 0 <= i < s.len() && is_ws(s[i]) {
        skip_ws(s, i + 1)
    } else {
        i
    }
}

/// First index at or after `i` that holds whitespace (or the length).
pub open spec fn skip_word(s: Seq<char>, i: int) -> int
    decreases s.len() - i,
{
    if 0 <= i < s.len() && !is_ws(s[i]) {
        skip_word(s, i + 1)
    } else {
        i
    }
}

/// Going down from `j`, the first end that is not preceded by whitespace, not below `lo`.
pub open spec fn back_ws(s: Seq<char>, lo: int, j: int) -> int
    decreases j - lo,
{
    if lo < j <= s.len() && is_ws(s[j - 1]) {
        back_ws(s, lo, j - 1)
    } else {
        j
    }
}

/// `s` without leading and trailing whitespace (`str::trim`).
pub open spec fn trim(s: Seq<char>) -> Seq<char> {
    let a = skip_ws(s, 0);
    s.subrange(a, back_ws(s, a, s.len() as int))
}

/// ASCII lowercase of one character (`char::to_ascii_lowercase`).
pub open spec fn lower_char(c: char) -> char {
    if 'A' <= c && c <= 'Z' {
        ((c as u32) + 32) as char
    } else {
        c
    }
}

/// ASCII lowercase of a sequence (`str::to_ascii_lowercase`).
pub open spec fn lower(s: Seq<char>) -> Seq<char> {
    Seq::new(s.len(), |i: int| lower_char(s[i]))
}

/// Whether `n` occurs in `h` starting at index `i`.
pub open spec fn matches_at(h: Seq<char>, n: Seq<char>, i: int) -> bool {
    0 <= i && i + n.len() <= h.len() && h.subrange(i, i + n.len()) == n
}

/// The first index at or after `i` where `n` occurs in `h`.
pub open spec fn find_from(h: Seq<char>, n: Seq<char>, i: int) -> Option<int>
    decreases h.len() + 1 - i,
{
    if i < 0 || i + n.len() > h.len() {
        None
    } else if matches_at(h, n, i) {
        Some(i)
    } else {
        find_from(h, n, i + 1)
    }
}

/// Whether `n` occurs anywhere in `h` (`str::contains`).
pub open spec fn contains(h: Seq<char>, n: Seq<char>) -> bool {
    find_from(h, n, 0) is Some
}

/// First index at or after `i` holding `c` (or the length).
pub open spec fn scan_to(s: Seq<char>, i: int, c: char) -> int
    decreases s.len() - i,
{
    if 0 <= i < s.len() && s[i] != c {
        scan_to(s, i + 1, c)
    } else {
        i
    }
}

/// The whitespace-separated words of `s` from index `i` on (`str::split_whitespace`).
pub open spec fn words_from(s: Seq<char>, i: int) -> Seq<Seq<char>>
    decreases s.len() - i,
{
    let a = skip_ws(s, i);
    if i < 0 || a >= s.len() {
        Seq::empty()
    } else {
        let b = skip_word(s, a);
        if b <= i || b > s.len() {
            Seq::empty()
        } else {
            seq![s.subrange(a, b)] + words_from(s, b)
        }
    }
}

/// The whitespace-separated words of `s`.
pub open spec fn words(s: Seq<char>) -> Seq<Seq<char>> {
    words_from(s, 0)
}

/// The views of a sequence of character vectors.
pub open spec fn vv(v: Seq<Vec<char>>) -> Seq<Seq<char>> {
    v.map_values(|x: Vec<char>| x@)
}

/// `Option<usize>` as `Option<int>`.
pub open spec fn opt_int(o: Option<usize>) -> Option<int> {
    match o {
        Some(k) => Some(k as int),
        None => None,
    }
}

// --- Lemmas --------------------------------------------------------------

/// Skipping whitespace stops inside the sequence, after whitespace only, at a
/// character that is not whitespace (or the end).
pub proof fn lemma_skip_ws_bounds(s: Seq<char>, i: int)
    requires
        0 <= i <= s.len(),
    ensures
        i <= skip_ws(s, i) <= s.len(),
        forall|k: int| i <= k < skip_ws(s, i) ==> is_ws(#[trigger] s[k]),
        skip_ws(s, i) < s.len() ==> !is_ws(s[skip_ws(s, i)]),
    decreases s.len() - i,
{
    if i < s.len() && is_ws(s[i]) {
        lemma_skip_ws_bounds(s, i + 1);
    }
}

/// Skipping a word stops inside the sequence, after non-whitespace only, at
/// whitespace (or the end).
pub proof fn lemma_skip_word_bounds(s: Seq<char>, i: int)
    requires
        0 <= i <= s.len(),
    ensures
        i <= skip_word(s, i) <= s.len(),
        forall|k: int| i <= k < skip_word(s, i) ==> !is_ws(#[trigger] s[k]),
        skip_word(s, i) < s.len() ==> is_ws(s[skip_word(s, i)]),
    decreases s.len() - i,
{
    if i < s.len() && !is_ws(s[i]) {
        lemma_skip_word_bounds(s, i + 1);
    }
}

/// Backing over trailing whitespace stays between `lo` and `j`, and stops after
/// a character that is not whitespace (or at `lo`).
pub proof fn lemma_back_ws_bounds(s: Seq<char>, lo: int, j: int)
    requires
        0 <= lo <= j <= s.len(),
    ensures
        lo <= back_ws(s, lo, j) <= j,
        back_ws(s, lo, j) > lo ==> !is_ws(s[back_ws(s, lo, j) - 1]),
        forall|k: int| back_ws(s, lo, j) <= k < j ==> is_ws(#[trigger] s[k]),
    decreases j - lo,
{
    if lo < j && is_ws(s[j - 1]) {
        lemma_back_ws_bounds(s, lo, j - 1);
    }
}

/// Scanning for `c` stops inside the sequence, past no `c`, at a `c` (or the end).
pub proof fn lemma_scan_to_bounds(s: Seq<char>, i: int, c: char)
    requires
        0 <= i <= s.len(),
    ensures
        i <= scan_to(s, i, c) <= s.len(),
        forall|k: int| i <= k < scan_to(s, i, c) ==> #[trigger] s[k] != c,
        scan_to(s, i, c) < s.len() ==> s[scan_to(s, i, c)] == c,
    decreases s.len() - i,
{
    if i < s.len() && s[i] != c {
        lemma_scan_to_bounds(s, i + 1, c);
    }
}

/// A match found from `i` on starts at or after `i`, fits in `h`, and is a match.
pub proof fn lemma_find_from_bounds(h: Seq<char>, n: Seq<char>, i: int)
    requires
        0 <= i,
    ensures
        find_from(h, n, i) matches Some(k) ==> i <= k && k + n.len() <= h.len() && matches_at(h, n, k),
    decreases h.len() + 1 - i,
{
    if i + n.len() <= h.len() && !matches_at(h, n, i) {
        lemma_find_from_bounds(h, n, i + 1);
    }
}

/// Trimming twice trims no more than trimming once.
pub proof fn lemma_trim_idempotent(s: Seq<char>)
    ensures
        trim(trim(s)) == trim(s),
{
    lemma_skip_ws_bounds(s, 0);
    let a = skip_ws(s, 0);
    lemma_back_ws_bounds(s, a, s.len() as int);
    let b = back_ws(s, a, s.len() as int);
    let t = trim(s);
    assert(t == s.subrange(a, b));
    if t.len() > 0 {
        assert(t[0] == s[a]);
        assert(t[t.len() - 1] == s[b - 1]);
        assert(skip_ws(t, 0) == 0);
        assert(back_ws(t, 0, t.len() as int) == t.len());
        assert(t.subrange(0, t.len() as int) =~= t);
    } else {
        assert(t.subrange(0, 0) =~= t);
    }
}

// --- Executable helpers --------------------------------------------------

/// `String::push`: appends one character. The contract claims what the function
/// documents: afterwards the string holds its old characters followed by `c`.
#[verifier::external_body]
pub(crate) fn string_push(s: &mut String, c: char)
    ensures
        final(s)@ == old(s)@.push(c),
{
    s.push(c);
}

/// The characters of a string slice, in order.
pub fn to_chars(s: &str) -> (res: Vec<char>)
    ensures
        res@ == s@,
{
    let mut res: Vec<char> = Vec::new();
    for c in iter: s.chars()
        invariant
            res@ == iter.seq().take(iter.index() as int),
    {
        res.push(c);
    }
    res
}

/// A string holding exactly the given characters.
pub fn from_chars(v: &[char]) -> (res: String)
    ensures
        res@ == v@,
{
    let mut res = String::new();
    let mut i: usize = 0;
    while i < v.len()
        invariant
            i <= v@.len(),
            res@ == v@.subrange(0, i as int),
        decreases v@.len() - i,
    {
        string_push(&mut res, v[i]);
        i += 1;
    }
    res
}

/// The characters of `s` from `a` to `b`.
pub fn slice_of(s: &[char], a: usize, b: usize) -> (res: Vec<char>)
    requires
        a <= b <= s@.len(),
    ensures
        res@ == s@.subrange(a as int, b as int),
{
    let mut res: Vec<char> = Vec::new();
    let mut i: usize = a;
    while i < b
        invariant
            a <= i <= b <= s@.len(),
            res@ == s@.subrange(a as int, i as int),
        decreases b - i,
    {
        res.push(s[i]);
        i += 1;
    }
    res
}

/// Appends `t` to `out`.
pub fn push_all(out: &mut Vec<char>, t: &[char])
    ensures
        final(out)@ == old(out)@ + t@,
{
    let mut i: usize = 0;
    while i < t.len()
        invariant
            i <= t@.len(),
            out@ == old(out)@ + t@.subrange(0, i as int),
        decreases t@.len() - i,
    {
        out.push(t[i]);
        i += 1;
    }
}

/// Whether `c` is Unicode whitespace (`char::is_whitespace`).
pub fn is_whitespace(c: char) -> (res: bool)
    ensures
        res == is_ws(c),
{
    ('\t' <= c && c <= '\r') || c == ' ' || c == '\u{85}' || c == '\u{A0}' || c == '\u{1680}'
        || ('\u{2000}' <= c && c <= '\u{200A}') || c == '\u{2028}' || c == '\u{2029}' || c
        == '\u{202F}' || c == '\u{205F}' || c == '\u{3000}'
}

/// ASCII lowercase of one character.
pub fn to_lower_char(c: char) -> (res: char)
    ensures
        res == lower_char(c),
{
    if 'A' <= c && c <= 'Z' {
        let u: u32 = c as u32;
        let l: u32 = u + 32;
        assert(l == (c as u32) + 32);
        char_from_ascii(l)
    } else {
        c
    }
}

fn char_from_ascii(u: u32) -> (res: char)
    requires
        97 <= u <= 122,
    ensures
        res == u as char,
{
    let b: u8 = u as u8;
    b as char
}

/// ASCII lowercase of a sequence.
pub fn to_lower(s: &[char]) -> (res: Vec<char>)
    ensures
        res@ == lower(s@),
{
    let mut res: Vec<char> = Vec::new();
    let mut i: usize = 0;
    while i < s.len()
        invariant
            i <= s@.len(),
            res@ == lower(s@.subrange(0, i as int)),
        decreases s@.len() - i,
    {
        let c = to_lower_char(s[i]);
        res.push(c);
        i += 1;
        assert(res@ =~= lower(s@.subrange(0, i as int)));
    }
    assert(s@.subrange(0, s@.len() as int) =~= s@);
    res
}

/// Whether two sequences are equal.
pub fn chars_eq(a: &[char], b: &[char]) -> (res: bool)
    ensures
        res == (a@ == b@),
{
    if a.len() != b.len() {
        return false;
    }
    let mut i: usize = 0;
    while i < a.len()
        invariant
            a@.len() == b@.len(),
            i <= a@.len(),
            forall|k: int| 0 <= k < i ==> a@[k] == b@[k],
        decreases a@.len() - i,
    {
        if a[i] != b[i] {
            return false;
        }
        i += 1;
    }
    assert(a@ =~= b@);
    true
}

/// Whether `n` occurs in `h` at index `i`.
pub fn match_at(h: &[char], n: &[char], i: usize) -> (res: bool)
    ensures
        res == matches_at(h@, n@, i as int),
{
    if n.len() > h.len() || i > h.len() - n.len() {
        return false;
    }
    let mut k: usize = 0;
    while k < n.len()
        invariant
            i + n@.len() <= h@.len(),
            h@.len() == h.len(),
            k <= n@.len(),
            forall|j: int| 0 <= j < k ==> h@[i + j] == n@[j],
        decreases n@.len() - k,
    {
        if h[i + k] != n[k] {
            assert(h@.subrange(i as int, i + n@.len())[k as int] != n@[k as int]);
            return false;
        }
        k += 1;
    }
    assert(h@.subrange(i as int, i + n@.len()) =~= n@);
    true
}

/// The first index at or after `from` where `n` occurs in `h`.
pub fn find(h: &[char], n: &[char], from: usize) -> (res: Option<usize>)
    ensures
        opt_int(res) == find_from(h@, n@, from as int),
{
    let mut i: usize = from;
    while i <= h.len() && n.len() <= h.len() - i
        invariant
            from <= i,
            find_from(h@, n@, i as int) == find_from(h@, n@, from as int),
        decreases h@.len() - i,
    {
        if match_at(h, n, i) {
            return Some(i);
        }
        if i >= h.len() {
            assert(find_from(h@, n@, i + 1) is None);
            return None;
        }
        i += 1;
    }
    assert(find_from(h@, n@, i as int) is None);
    None
}

/// Whether `n` occurs anywhere in `h`.
pub fn contains_seq(h: &[char], n: &[char]) -> (res: bool)
    ensures
        res == contains(h@, n@),
{
    find(h, n, 0).is_some()
}

/// Whether `s` begins with `c`.
pub fn starts_with_char(s: &[char], c: char) -> (res: bool)
    ensures
        res == (s@.len() > 0 && s@[0] == c),
{
    s.len() > 0 && s[0] == c
}

/// Whether `s` ends with `c`.
pub fn ends_with_char(s: &[char], c: char) -> (res: bool)
    ensures
        res == (s@.len() > 0 && s@[s@.len() - 1] == c),
{
    s.len() > 0 && s[s.len() - 1] == c
}

/// First index at or after `i` holding `c` (or the length).
pub fn index_of(s: &[char], i: usize, c: char) -> (res: usize)
    requires
        i <= s@.len(),
    ensures
        res == scan_to(s@, i as int, c),
{
    let mut k = i;
    while k < s.len() && s[k] != c
        invariant
            i <= k <= s@.len(),
            scan_to(s@, k as int, c) == scan_to(s@, i as int, c),
        decreases s@.len() - k,
    {
        k += 1;
    }
    k
}

/// First index at or after `i` that does not hold whitespace.
pub fn skip_spaces(s: &[char], i: usize) -> (res: usize)
    requires
        i <= s@.len(),
    ensures
        res == skip_ws(s@, i as int),
{
    let mut k = i;
    while k < s.len() && is_whitespace(s[k])
        invariant
            i <= k <= s@.len(),
            skip_ws(s@, k as int) == skip_ws(s@, i as int),
        decreases s@.len() - k,
    {
        k += 1;
    }
    k
}

/// First index at or after `i` that holds whitespace.
pub fn skip_nonspaces(s: &[char], i: usize) -> (res: usize)
    requires
        i <= s@.len(),
    ensures
        res == skip_word(s@, i as int),
{
    let mut k = i;
    while k < s.len() && !is_whitespace(s[k])
        invariant
            i <= k <= s@.len(),
            skip_word(s@, k as int) == skip_word(s@, i as int),
        decreases s@.len() - k,
    {
        k += 1;
    }
    k
}

/// Whether `w` is one of the sequences in `ws`.
pub fn list_contains(ws: &Vec<Vec<char>>, w: &[char]) -> (res: bool)
    ensures
        res == vv(ws@).contains(w@),
{
    let mut k: usize = 0;
    while k < ws.len()
        invariant
            k <= ws@.len(),
            forall|j: int| 0 <= j < k ==> vv(ws@)[j] != w@,
        decreases ws@.len() - k,
    {
        if chars_eq(&ws[k], w) {
            assert(vv(ws@)[k as int] == w@);
            return true;
        }
        k += 1;
    }
    proof {
        if vv(ws@).contains(w@) {
            let j = choose|j: int| 0 <= j < vv(ws@).len() && vv(ws@)[j] == w@;
            assert(vv(ws@)[j] != w@);
        }
    }
    false
}

/// `s` without leading and trailing whitespace.
pub fn trim_chars(s: &[char]) -> (res: Vec<char>)
    ensures
        res@ == trim(s@),
{
    let a = skip_spaces(s, 0);
    proof {
        lemma_skip_ws_bounds(s@, 0);
    }
    let mut b = s.len();
    while b > a && is_whitespace(s[b - 1])
        invariant
            a <= b <= s@.len(),
            back_ws(s@, a as int, b as int) == back_ws(s@, a as int, s@.len() as int),
        decreases b,
    {
        b -= 1;
    }
    slice_of(s, a, b)
}

/// The whitespace-separated words of `s`.
pub fn split_words(s: &[char]) -> (res: Vec<Vec<char>>)
    ensures
        vv(res@) == words(s@),
{
    let mut res: Vec<Vec<char>> = Vec::new();
    let mut i: usize = 0;
    while i < s.len()
        invariant
            i <= s@.len(),
            vv(res@) + words_from(s@, i as int) == words(s@),
        decreases s@.len() - i,
    {
        let a = skip_spaces(s, i);
        proof {
            lemma_skip_ws_bounds(s@, i as int);
        }
        if a >= s.len() {
            assert(words_from(s@, i as int) == Seq::<Seq<char>>::empty());
            assert(vv(res@) + Seq::<Seq<char>>::empty() =~= vv(res@));
            return res;
        }
        let b = skip_nonspaces(s, a);
        proof {
            lemma_skip_word_bounds(s@, a as int);
        }
        let w = slice_of(s, a, b);
        let ghost old_res = vv(res@);
        res.push(w);
        assert(vv(res@) =~= old_res.push(w@));
        assert(words_from(s@, i as int) == seq![s@.subrange(a as int, b as int)] + words_from(
            s@,
            b as int,
        ));
        assert(vv(res@) + words_from(s@, b as int) =~= old_res + words_from(s@, i as int));
        i = b;
    }
    assert(words_from(s@, i as int) == Seq::<Seq<char>>::empty());
    assert(vv(res@) + Seq::<Seq<char>>::empty() =~= vv(res@));
    res
}

} // verus!
