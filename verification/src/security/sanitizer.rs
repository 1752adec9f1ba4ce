//! Removal of dangerous elements and attributes from HTML text.
use vstd::prelude::*;
use crate::error::IronpressError;
use crate::text::{
    ascii_lower, char_is_whitespace, chars_equal_str, chars_of, find_chars, find_from,
    is_whitespace_char, lemma_find_from, lower_chars, occurs_at, string_from_chars,
};

verus! {

/// Maximum allowed HTML input size (10 MB), in bytes.
pub const MAX_INPUT_SIZE: usize = 10 * 1024 * 1024;

/// Maximum allowed nesting depth.
pub const MAX_NESTING_DEPTH: usize = 100;

/// The input is larger than `MAX_INPUT_SIZE` bytes in UTF-8.
pub open spec fn exceeds_size(s: Seq<char>) -> bool {
    vstd::utf8::encode_utf8(s).len() > MAX_INPUT_SIZE
}

/// The input nests tags deeper than `MAX_NESTING_DEPTH`.
pub open spec fn exceeds_depth(s: Seq<char>) -> bool {
    nesting_depth(s) > MAX_NESTING_DEPTH
}

/// `s` without its `script`, `style`, `iframe`, `object`, `embed` and `form`
/// elements, removed in that order.
pub open spec fn strip_dangerous_tags(s: Seq<char>) -> Seq<char> {
    strip_tag(
        strip_tag(
            strip_tag(
                strip_tag(strip_tag(strip_tag(s, "script"@), "style"@), "iframe"@),
                "object"@,
            ),
            "embed"@,
        ),
        "form"@,
    )
}

/// One pass of the sanitizer: the dangerous elements removed, then the event-handler
/// attributes, then every `javascript:` in any ASCII case.
pub open spec fn sanitize_pass(s: Seq<char>) -> Seq<char> {
    remove_ci(strip_handlers(strip_dangerous_tags(s)), "javascript:"@)
}

/// The sanitized form of `s`: passes are repeated while they shorten the text, so the
/// result is left as it is by one more pass.
pub open spec fn sanitized(s: Seq<char>) -> Seq<char>
    decreases s.len(),
{
    let t = sanitize_pass(s);
    if t.len() < s.len() {
        sanitized(t)
    } else {
        s
    }
}

/// Sanitize HTML input by removing dangerous elements and attributes.
///
/// Input over `MAX_INPUT_SIZE` bytes, or nesting tags deeper than `MAX_NESTING_DEPTH`,
/// is rejected with a security error. Otherwise the `script`, `style`, `iframe`,
/// `object`, `embed` and `form` elements are removed with their content, then the
/// event-handler attributes, then every `javascript:`; this is repeated until nothing
/// more is removed (see `sanitized`).
pub fn sanitize_html(html: &str) -> (r: Result<String, IronpressError>)
    ensures
        exceeds_size(html@) ==> (r matches Err(IronpressError::SecurityError(m)) && m@
            == "Input exceeds maximum size of 10485760 bytes"@),
        !exceeds_size(html@) && exceeds_depth(html@) ==> (r matches Err(
            IronpressError::SecurityError(m),
        ) && m@ == "HTML nesting depth exceeds maximum"@),
        !exceeds_size(html@) && !exceeds_depth(html@) ==> (r matches Ok(out) && out@
            == sanitized(html@)),
{
    if html.as_bytes().len() > MAX_INPUT_SIZE {
        return Err(
            IronpressError::SecurityError(
                String::from_str("Input exceeds maximum size of 10485760 bytes"),
            ),
        );
    }
    if check_nesting_depth(html) > MAX_NESTING_DEPTH {
        return Err(
            IronpressError::SecurityError(String::from_str("HTML nesting depth exceeds maximum")),
        );
    }
    let mut cur = chars_of(html);
    loop
        invariant
            sanitized(cur@) == sanitized(html@),
        ensures
            cur@ == sanitized(html@),
        decreases cur@.len(),
    {
        let next = sanitize_pass_chars(cur.as_slice());
        if next.len() < cur.len() {
            cur = next;
        } else {
            break ;
        }
    }
    Ok(string_from_chars(cur.as_slice()))
}

/// One pass of the sanitizer over the characters `s` (see `sanitize_pass`).
fn sanitize_pass_chars(s: &[char]) -> (r: Vec<char>)
    ensures
        r@ == sanitize_pass(s@),
{
    let mut cur = vstd::slice::slice_to_vec(s);
    cur = strip_tag_chars(cur, chars_of("script").as_slice());
    cur = strip_tag_chars(cur, chars_of("style").as_slice());
    cur = strip_tag_chars(cur, chars_of("iframe").as_slice());
    cur = strip_tag_chars(cur, chars_of("object").as_slice());
    cur = strip_tag_chars(cur, chars_of("embed").as_slice());
    cur = strip_tag_chars(cur, chars_of("form").as_slice());
    let kept = strip_handlers_chars(cur.as_slice());
    remove_ci_chars(kept, chars_of("javascript:").as_slice())
}

// ---------------------------------------------------------------------------
// Removing an element together with its content
// ---------------------------------------------------------------------------

/// The text that opens an element: `<` followed by the tag name.
pub open spec fn open_pattern(tag: Seq<char>) -> Seq<char> {
    seq!['<'] + tag
}

/// The text that closes an element: `</`, the tag name, `>`.
pub open spec fn close_pattern(tag: Seq<char>) -> Seq<char> {
    seq!['<', '/'] + tag + seq!['>']
}

/// `s` without the characters at indices `a..b`.
pub open spec fn cut(s: Seq<char>, a: int, b: int) -> Seq<char> {
    s.take(a) + s.skip(b)
}

/// `s` with every `tag` element removed.
///
/// Each round looks, without regard to ASCII case, for the first opening text `<tag`
/// and the first closing text `</tag>` at or after it. With both present, everything
/// from the opening text to the end of the closing text is removed. With only an
/// opening text, the element runs to the first `>` after it, and when there is none
/// the text stays as it is. Without an opening text the removal is done.
pub open spec fn strip_tag(s: Seq<char>, tag: Seq<char>) -> Seq<char>
    decreases s.len(),
{
    let low = ascii_lower(s);
    match find_from(low, open_pattern(tag), 0) {
        None => s,
        Some(a) => match find_from(low, close_pattern(tag), a) {
            Some(b) => {
                proof {
                    lemma_find_from(low, close_pattern(tag), a);
                }
                strip_tag(cut(s, a as int, (b + close_pattern(tag).len()) as int), tag)
            },
            None => match find_from(s, seq!['>'], a) {
                Some(g) => {
                    proof {
                        lemma_find_from(low, open_pattern(tag), 0);
                        lemma_find_from(s, seq!['>'], a);
                    }
                    strip_tag(cut(s, a as int, (g + 1) as int), tag)
                },
                None => s,
            },
        },
    }
}

/// `s` without the characters at indices `a..b`.
fn cut_chars(v: &[char], a: usize, b: usize) -> (r: Vec<char>)
    requires
        a <= v@.len(),
        b <= v@.len(),
    ensures
        r@ == cut(v@, a as int, b as int),
{
    let n = v.len();
    let mut r: Vec<char> = Vec::new();
    for i in 0..a
        invariant
            n == v@.len(),
            a <= n,
            r@ == v@.take(i as int),
    {
        r.push(v[i]);
        assert(v@.take(i + 1) == v@.take(i as int).push(v@[i as int]));
    }
    for i in b..n
        invariant
            n == v@.len(),
            a <= n,
            b <= n,
            r@ == v@.take(a as int) + v@.subrange(b as int, i as int),
    {
        r.push(v[i]);
        assert(v@.subrange(b as int, i + 1) == v@.subrange(b as int, i as int).push(v@[i as int]));
    }
    assert(v@.subrange(b as int, n as int) == v@.skip(b as int));
    r
}

/// `<` followed by the tag name.
fn open_chars(tag: &[char]) -> (r: Vec<char>)
    ensures
        r@ == open_pattern(tag@),
{
    let mut r = vec!['<'];
    let n = tag.len();
    for i in 0..n
        invariant
            n == tag@.len(),
            r@ == seq!['<'] + tag@.take(i as int),
    {
        r.push(tag[i]);
        assert(tag@.take(i + 1) == tag@.take(i as int).push(tag@[i as int]));
    }
    assert(tag@.take(n as int) == tag@);
    r
}

/// `</`, the tag name, `>`.
fn close_chars(tag: &[char]) -> (r: Vec<char>)
    ensures
        r@ == close_pattern(tag@),
{
    let mut r = vec!['<', '/'];
    let n = tag.len();
    for i in 0..n
        invariant
            n == tag@.len(),
            r@ == seq!['<', '/'] + tag@.take(i as int),
    {
        r.push(tag[i]);
        assert(tag@.take(i + 1) == tag@.take(i as int).push(tag@[i as int]));
    }
    assert(tag@.take(n as int) == tag@);
    r.push('>');
    r
}

/// Removes every `tag` element from the characters `s` (see `strip_tag`).
fn strip_tag_chars(s: Vec<char>, tag: &[char]) -> (r: Vec<char>)
    ensures
        r@ == strip_tag(s@, tag@),
{
    let open = open_chars(tag);
    let close = close_chars(tag);
    let gt = vec!['>'];
    assert(gt@ =~= seq!['>']);
    let mut cur = s;
    loop
        invariant
            open@ == open_pattern(tag@),
            close@ == close_pattern(tag@),
            gt@ == seq!['>'],
            strip_tag(cur@, tag@) == strip_tag(s@, tag@),
        ensures
            cur@ == strip_tag(s@, tag@),
        decreases cur@.len(),
    {
        let n = cur.len();
        let lower = lower_chars(cur.as_slice());
        proof {
            lemma_find_from(lower@, open@, 0);
        }
        match find_chars(lower.as_slice(), open.as_slice(), 0) {
            None => {
                break ;
            },
            Some(a) => {
                let found_close = find_chars(lower.as_slice(), close.as_slice(), a);
                proof {
                    lemma_find_from(lower@, close@, a as nat);
                }
                match found_close {
                    Some(e) => {
                        assert(e + close@.len() <= n);
                        let end_pos = e + close.len();
                        cur = cut_chars(cur.as_slice(), a, end_pos);
                    },
                    None => {
                        let found = find_chars(cur.as_slice(), gt.as_slice(), a);
                        proof {
                            lemma_find_from(cur@, gt@, a as nat);
                        }
                        match found {
                            Some(g) => {
                                assert(g < n);
                                cur = cut_chars(cur.as_slice(), a, g + 1);
                            },
                            None => {
                                break ;
                            },
                        }
                    },
                }
            },
        }
    }
    cur
}

/// Removes every `tag` element, with its content, from `html` (see `strip_tag`).
/// The tag name is matched without regard to ASCII case.
pub fn remove_tag_with_content(html: &str, tag: &str) -> (r: String)
    ensures
        r@ == strip_tag(html@, tag@),
        r@.len() <= html@.len(),
{
    let tag_chars = chars_of(tag);
    let stripped = strip_tag_chars(chars_of(html), tag_chars.as_slice());
    proof {
        lemma_strip_tag_shrinks(html@, tag@);
    }
    string_from_chars(stripped.as_slice())
}

/// Removing elements never lengthens the text, and a removal that keeps the length
/// changes nothing.
pub proof fn lemma_strip_tag_shrinks(s: Seq<char>, tag: Seq<char>)
    ensures
        strip_tag(s, tag).len() <= s.len(),
        strip_tag(s, tag).len() == s.len() ==> strip_tag(s, tag) == s,
    decreases s.len(),
{
    let low = ascii_lower(s);
    let open = open_pattern(tag);
    let close = close_pattern(tag);
    lemma_find_from(low, open, 0);
    match find_from(low, open, 0) {
        None => {},
        Some(a) => {
            lemma_find_from(low, close, a);
            match find_from(low, close, a) {
                Some(b) => {
                    lemma_strip_tag_shrinks(cut(s, a as int, (b + close.len()) as int), tag);
                },
                None => {
                    lemma_find_from(s, seq!['>'], a);
                    match find_from(s, seq!['>'], a) {
                        Some(g) => {
                            lemma_strip_tag_shrinks(cut(s, a as int, (g + 1) as int), tag);
                        },
                        None => {},
                    }
                },
            }
        },
    }
}

// ---------------------------------------------------------------------------
// Removing every occurrence of a text
// ---------------------------------------------------------------------------

/// `s` with the text `pat` (given in lower case) deleted without regard to ASCII case,
/// again and again, until it no longer occurs.
pub open spec fn remove_ci(s: Seq<char>, pat: Seq<char>) -> Seq<char>
    decreases s.len(),
{
    if pat.len() == 0 {
        s
    } else {
        match find_from(ascii_lower(s), pat, 0) {
            None => s,
            Some(a) => {
                proof {
                    lemma_find_from(ascii_lower(s), pat, 0);
                }
                remove_ci(cut(s, a as int, (a + pat.len()) as int), pat)
            },
        }
    }
}

/// Deletes `pat` from `s` without regard to ASCII case until it no longer occurs (see
/// `remove_ci`).
fn remove_ci_chars(s: Vec<char>, pat: &[char]) -> (r: Vec<char>)
    ensures
        r@ == remove_ci(s@, pat@),
{
    let k = pat.len();
    if k == 0 {
        return s;
    }
    let mut cur = s;
    loop
        invariant
            k == pat@.len(),
            k > 0,
            remove_ci(cur@, pat@) == remove_ci(s@, pat@),
        ensures
            cur@ == remove_ci(s@, pat@),
        decreases cur@.len(),
    {
        let n = cur.len();
        let lower = lower_chars(cur.as_slice());
        proof {
            lemma_find_from(lower@, pat@, 0);
        }
        match find_chars(lower.as_slice(), pat, 0) {
            None => {
                break ;
            },
            Some(a) => {
                assert(a + k <= n);
                cur = cut_chars(cur.as_slice(), a, a + k);
            },
        }
    }
    cur
}

/// Deleting never lengthens the text, and a deletion that keeps the length changes
/// nothing.
pub proof fn lemma_remove_ci_shrinks(s: Seq<char>, pat: Seq<char>)
    ensures
        remove_ci(s, pat).len() <= s.len(),
        remove_ci(s, pat).len() == s.len() ==> remove_ci(s, pat) == s,
    decreases s.len(),
{
    if pat.len() > 0 {
        lemma_find_from(ascii_lower(s), pat, 0);
        if let Some(a) = find_from(ascii_lower(s), pat, 0) {
            lemma_remove_ci_shrinks(cut(s, a as int, (a + pat.len()) as int), pat);
        }
    }
}

/// After the deletion the text does not occur, in any ASCII case.
pub proof fn lemma_remove_ci_complete(s: Seq<char>, pat: Seq<char>)
    requires
        pat.len() > 0,
    ensures
        forall|i: int| !#[trigger] occurs_at(ascii_lower(remove_ci(s, pat)), pat, i),
    decreases s.len(),
{
    lemma_find_from(ascii_lower(s), pat, 0);
    if let Some(a) = find_from(ascii_lower(s), pat, 0) {
        lemma_remove_ci_complete(cut(s, a as int, (a + pat.len()) as int), pat);
        assert(remove_ci(s, pat) == remove_ci(cut(s, a as int, (a + pat.len()) as int), pat));
    } else {
        assert(remove_ci(s, pat) == s);
    }
}

// ---------------------------------------------------------------------------
// Removing event-handler attributes
// ---------------------------------------------------------------------------

/// An ASCII letter.
pub open spec fn is_ascii_alpha(c: char) -> bool {
    ('A' <= c <= 'Z') || ('a' <= c <= 'z')
}

/// The end of an attribute name that starts at `j`: the first `=`, space or `>`
/// at or after `j`, or the end of the text.
pub open spec fn attr_name_end(s: Seq<char>, j: nat) -> nat
    decreases s.len() - j,
{
    if j < s.len() && s[j as int] != '=' && s[j as int] != ' ' && s[j as int] != '>' {
        attr_name_end(s, j + 1)
    } else {
        j
    }
}

/// The first index at or after `j` that does not hold whitespace.
pub open spec fn skip_whitespace(s: Seq<char>, j: nat) -> nat
    decreases s.len() - j,
{
    if j < s.len() && is_whitespace_char(s[j as int]) {
        skip_whitespace(s, j + 1)
    } else {
        j
    }
}

/// The first index at or after `j` that holds `q`, or the end of the text.
pub open spec fn find_char_from(s: Seq<char>, j: nat, q: char) -> nat
    decreases s.len() - j,
{
    if j < s.len() && s[j as int] != q {
        find_char_from(s, j + 1, q)
    } else {
        j
    }
}

/// The end of an unquoted attribute value: the first space or `>` at or after `j`,
/// or the end of the text.
pub open spec fn unquoted_value_end(s: Seq<char>, j: nat) -> nat
    decreases s.len() - j,
{
    if j < s.len() && s[j as int] != ' ' && s[j as int] != '>' {
        unquoted_value_end(s, j + 1)
    } else {
        j
    }
}

/// The index just after an event-handler attribute that starts at `i`: its name, then,
/// if an `=` follows, optional whitespace and a value, quoted with `"` or `'` (up to
/// and including the closing quote, or to the end) or unquoted.
pub open spec fn handler_end(s: Seq<char>, i: nat) -> nat {
    let j = attr_name_end(s, i);
    if j < s.len() && s[j as int] == '=' {
        let k = skip_whitespace(s, j + 1);
        if k < s.len() && (s[k as int] == '"' || s[k as int] == '\'') {
            let m = find_char_from(s, k + 1, s[k as int]);
            if m < s.len() {
                m + 1
            } else {
                m
            }
        } else {
            unquoted_value_end(s, k)
        }
    } else {
        j
    }
}

/// Whether an event-handler attribute starts at `i`: inside a tag, after a space, tab
/// or newline (the start of the text counts as a space), `o` or `O`, then `n` or `N`,
/// then a letter.
pub open spec fn handler_starts(s: Seq<char>, i: nat, in_tag: bool) -> bool {
    &&& in_tag
    &&& i + 2 < s.len()
    &&& (s[i as int] == 'o' || s[i as int] == 'O')
    &&& (s[i + 1int] == 'n' || s[i + 1int] == 'N')
    &&& is_ascii_alpha(s[i + 2int])
    &&& {
        let prev = if i > 0 {
            s[i - 1]
        } else {
            ' '
        };
        prev == ' ' || prev == '\t' || prev == '\n'
    }
}

/// The scanning functions move forward and stay within the text.
pub proof fn lemma_scans_forward(s: Seq<char>, j: nat, q: char)
    ensures
        j <= attr_name_end(s, j),
        j <= s.len() ==> attr_name_end(s, j) <= s.len(),
        j <= skip_whitespace(s, j),
        j <= s.len() ==> skip_whitespace(s, j) <= s.len(),
        j <= unquoted_value_end(s, j),
        j <= s.len() ==> unquoted_value_end(s, j) <= s.len(),
        j <= find_char_from(s, j, q),
        j <= s.len() ==> find_char_from(s, j, q) <= s.len(),
    decreases s.len() - j,
{
    if j < s.len() {
        lemma_scans_forward(s, j + 1, q);
    }
}

/// An event-handler attribute is at least one character long and ends within the text.
pub proof fn lemma_handler_end(s: Seq<char>, i: nat, in_tag: bool)
    requires
        handler_starts(s, i, in_tag),
    ensures
        i < handler_end(s, i) <= s.len(),
{
    lemma_scans_forward(s, i + 1, ' ');
    assert(attr_name_end(s, i) == attr_name_end(s, i + 1));
    let j = attr_name_end(s, i);
    if j < s.len() && s[j as int] == '=' {
        lemma_scans_forward(s, j + 1, ' ');
        let k = skip_whitespace(s, j + 1);
        if k < s.len() {
            lemma_scans_forward(s, k + 1, s[k as int]);
        }
        lemma_scans_forward(s, k, ' ');
    }
}

/// The characters that remain of `s[i..]` once event-handler attributes are dropped,
/// when the scan arrives at `i` inside a tag (`in_tag`) or outside one. `<` enters a
/// tag and `>` leaves it; both are kept.
pub open spec fn strip_handlers_from(s: Seq<char>, i: nat, in_tag: bool) -> Seq<char>
    decreases s.len() - i,
{
    if i >= s.len() {
        Seq::empty()
    } else if s[i as int] == '<' {
        seq![s[i as int]] + strip_handlers_from(s, i + 1, true)
    } else if s[i as int] == '>' {
        seq![s[i as int]] + strip_handlers_from(s, i + 1, false)
    } else if handler_starts(s, i, in_tag) {
        proof {
            lemma_handler_end(s, i, in_tag);
        }
        strip_handlers_from(s, handler_end(s, i), in_tag)
    } else {
        seq![s[i as int]] + strip_handlers_from(s, i + 1, in_tag)
    }
}

/// The characters of `s` that remain once event-handler attributes are dropped.
pub open spec fn strip_handlers(s: Seq<char>) -> Seq<char> {
    strip_handlers_from(s, 0, false)
}

/// Whether the scan is inside a tag when it arrives at `i`: the last `<` or `>` before
/// `i` is a `<`.
pub open spec fn tag_state(s: Seq<char>, i: nat) -> bool
    decreases i,
{
    if i == 0 {
        false
    } else if s[i - 1] == '<' {
        true
    } else if s[i - 1] == '>' {
        false
    } else {
        tag_state(s, (i - 1) as nat)
    }
}

/// Drops the event-handler attributes from the characters `s` (see `strip_handlers`).
fn strip_handlers_chars(s: &[char]) -> (r: Vec<char>)
    ensures
        r@ == strip_handlers(s@),
{
    let n = s.len();
    let mut kept: Vec<char> = Vec::new();
    let mut in_tag = false;
    let mut i: usize = 0;
    while i < n
        invariant
            n == s@.len(),
            i <= n,
            kept@ + strip_handlers_from(s@, i as nat, in_tag) == strip_handlers(s@),
        decreases n - i,
    {
        let c = s[i];
        if c == '<' {
            in_tag = true;
            proof {
                assert(kept@ + strip_handlers_from(s@, i as nat, false) == kept@.push(c)
                    + strip_handlers_from(s@, (i + 1) as nat, true));
            }
            kept.push(c);
            i += 1;
        } else if c == '>' {
            proof {
                assert(kept@ + strip_handlers_from(s@, i as nat, in_tag) == kept@.push(c)
                    + strip_handlers_from(s@, (i + 1) as nat, false));
            }
            in_tag = false;
            kept.push(c);
            i += 1;
        } else if in_tag && (c == 'o' || c == 'O') && n - i > 2 && (s[i + 1] == 'n' || s[i
            + 1] == 'N') && ascii_alpha(s[i + 2]) && (if i > 0 {
            s[i - 1] == ' ' || s[i - 1] == '\t' || s[i - 1] == '\n'
        } else {
            true
        }) {
            assert(handler_starts(s@, i as nat, in_tag));
            proof {
                lemma_handler_end(s@, i as nat, in_tag);
            }
            i = skip_handler(s, i);
        } else {
            proof {
                assert(kept@ + strip_handlers_from(s@, i as nat, in_tag) == kept@.push(c)
                    + strip_handlers_from(s@, (i + 1) as nat, in_tag));
            }
            kept.push(c);
            i += 1;
        }
    }
    proof {
        assert(kept@ + strip_handlers_from(s@, i as nat, in_tag) == kept@);
    }
    kept
}

/// Removes `on...` attributes from the tags of `html` (see `strip_handlers`).
pub fn remove_event_handlers(html: &str) -> (r: String)
    ensures
        r@ == strip_handlers(html@),
{
    let chars = chars_of(html);
    string_from_chars(strip_handlers_chars(chars.as_slice()).as_slice())
}

/// Whether a character is an ASCII letter.
fn ascii_alpha(c: char) -> (r: bool)
    ensures
        r == is_ascii_alpha(c),
{
    ('A' <= c && c <= 'Z') || ('a' <= c && c <= 'z')
}

/// The index just after the event-handler attribute that starts at `i` (see `handler_end`).
fn skip_handler(s: &[char], i: usize) -> (j: usize)
    requires
        i <= s@.len(),
    ensures
        j == handler_end(s@, i as nat),
{
    let n = s.len();
    let mut j = i;
    while j < n && s[j] != '=' && s[j] != ' ' && s[j] != '>'
        invariant
            n == s@.len(),
            i <= j <= n,
            attr_name_end(s@, j as nat) == attr_name_end(s@, i as nat),
        decreases n - j,
    {
        j += 1;
    }
    if j < n && s[j] == '=' {
        j += 1;
        let ghost after_eq = j;
        while j < n && char_is_whitespace(s[j])
            invariant
                n == s@.len(),
                after_eq <= j <= n,
                skip_whitespace(s@, j as nat) == skip_whitespace(s@, after_eq as nat),
            decreases n - j,
        {
            j += 1;
        }
        if j < n && (s[j] == '"' || s[j] == '\'') {
            let quote = s[j];
            j += 1;
            let ghost after_quote = j;
            while j < n && s[j] != quote
                invariant
                    n == s@.len(),
                    after_quote <= j <= n,
                    find_char_from(s@, j as nat, quote) == find_char_from(s@, after_quote as nat, quote),
                decreases n - j,
            {
                j += 1;
            }
            if j < n {
                j += 1;
            }
        } else {
            let ghost value_start = j;
            while j < n && s[j] != ' ' && s[j] != '>'
                invariant
                    n == s@.len(),
                    value_start <= j <= n,
                    unquoted_value_end(s@, j as nat) == unquoted_value_end(s@, value_start as nat),
                decreases n - j,
            {
                j += 1;
            }
        }
    }
    j
}

/// Dropping handlers never lengthens the text, and a scan that keeps the length keeps
/// every character.
pub proof fn lemma_handlers_shrink(s: Seq<char>, i: nat, in_tag: bool)
    requires
        i <= s.len(),
    ensures
        strip_handlers_from(s, i, in_tag).len() <= s.len() - i,
        strip_handlers_from(s, i, in_tag).len() == s.len() - i ==> strip_handlers_from(
            s,
            i,
            in_tag,
        ) == s.skip(i as int),
    decreases s.len() - i,
{
    if i < s.len() {
        lemma_handlers_shrink(s, i + 1, true);
        lemma_handlers_shrink(s, i + 1, false);
        lemma_handlers_shrink(s, i + 1, in_tag);
        assert(s.skip(i as int) == seq![s[i as int]] + s.skip(i + 1int));
        if s[i as int] != '<' && s[i as int] != '>' && handler_starts(s, i, in_tag) {
            lemma_handler_end(s, i, in_tag);
            lemma_handlers_shrink(s, handler_end(s, i), in_tag);
        }
    } else {
        assert(s.skip(i as int) =~= Seq::<char>::empty());
    }
}

/// Where the scan keeps every character from `i` on, no event-handler attribute starts
/// at or after `i` at a place inside a tag.
proof fn lemma_handlers_kept_from(s: Seq<char>, i: nat)
    requires
        i <= s.len(),
        strip_handlers_from(s, i, tag_state(s, i)).len() == s.len() - i,
    ensures
        forall|k: nat| i <= k < s.len() ==> !#[trigger] handler_starts(s, k, tag_state(s, k)),
    decreases s.len() - i,
{
    if i < s.len() {
        let t = tag_state(s, i);
        assert(tag_state(s, i + 1) == if s[i as int] == '<' {
            true
        } else if s[i as int] == '>' {
            false
        } else {
            t
        });
        if s[i as int] != '<' && s[i as int] != '>' && handler_starts(s, i, t) {
            lemma_handler_end(s, i, t);
            lemma_handlers_shrink(s, handler_end(s, i), t);
            assert(false);
        }
        lemma_handlers_kept_from(s, i + 1);
    }
}

/// Text that dropping handlers leaves as it is holds no event-handler attribute: no
/// place inside a tag where one starts.
pub proof fn lemma_handlers_fixed(s: Seq<char>)
    requires
        strip_handlers(s) == s,
    ensures
        forall|k: nat| k < s.len() ==> !#[trigger] handler_starts(s, k, tag_state(s, k)),
{
    lemma_handlers_kept_from(s, 0);
}

// ---------------------------------------------------------------------------
// Nesting depth
// ---------------------------------------------------------------------------

/// The state of the nesting-depth scan: the current depth, the greatest depth seen,
/// whether the scan is inside a tag, whether that tag is a closing one, whether its
/// name is still being read, the name read so far, and whether the last character was
/// a `/`.
pub struct DepthScan {
    pub depth: nat,
    pub max_depth: nat,
    pub in_tag: bool,
    pub is_closing: bool,
    pub naming: bool,
    pub name: Seq<char>,
    pub last_slash: bool,
}

/// The scan state before any character.
pub open spec fn depth_start() -> DepthScan {
    DepthScan {
        depth: 0,
        max_depth: 0,
        in_tag: false,
        is_closing: false,
        naming: false,
        name: Seq::empty(),
        last_slash: false,
    }
}

/// The HTML void elements, which never hold content (name in lower case).
pub open spec fn is_void_name(n: Seq<char>) -> bool {
    n == "area"@ || n == "base"@ || n == "br"@ || n == "col"@ || n == "embed"@ || n == "hr"@ || n == "img"@ || n == "input"@ || n == "link"@ || n == "meta"@ || n == "param"@ || n == "source"@ || n == "track"@ || n == "wbr"@
}

/// The depth after a tag ends: one less (not below zero) after a closing tag, the same
/// after a self-closing tag (`/>`) or a void element, one more otherwise.
pub open spec fn depth_after_tag(st: DepthScan) -> nat {
    if st.is_closing {
        if st.depth > 0 {
            (st.depth - 1) as nat
        } else {
            0
        }
    } else if st.last_slash || is_void_name(ascii_lower(st.name)) {
        st.depth
    } else {
        st.depth + 1
    }
}

/// One character of the scan. `<` starts a tag; inside a tag, a `/` before the name
/// marks a closing tag, the name runs up to whitespace, `/` or `>`, and `>` ends the
/// tag and sets the depth (see `depth_after_tag`).
pub open spec fn depth_step(st: DepthScan, c: char) -> DepthScan {
    if c == '<' {
        DepthScan {
            in_tag: true,
            is_closing: false,
            naming: true,
            name: Seq::empty(),
            last_slash: false,
            ..st
        }
    } else if !st.in_tag {
        st
    } else if c == '>' {
        let d = depth_after_tag(st);
        DepthScan {
            depth: d,
            max_depth: if d > st.max_depth {
                d
            } else {
                st.max_depth
            },
            in_tag: false,
            is_closing: false,
            naming: false,
            name: Seq::empty(),
            last_slash: false,
        }
    } else if c == '/' {
        if st.naming && st.name.len() == 0 {
            DepthScan { is_closing: true, last_slash: true, ..st }
        } else {
            DepthScan { naming: false, last_slash: true, ..st }
        }
    } else if is_whitespace_char(c) {
        DepthScan { naming: false, last_slash: false, ..st }
    } else {
        DepthScan {
            name: if st.naming {
                st.name.push(c)
            } else {
                st.name
            },
            last_slash: false,
            ..st
        }
    }
}

/// The scan state after the characters of `s`.
pub open spec fn depth_scan(s: Seq<char>) -> DepthScan
    decreases s.len(),
{
    if s.len() == 0 {
        depth_start()
    } else {
        depth_step(depth_scan(s.drop_last()), s.last())
    }
}

/// The greatest tag nesting depth reached in `s`.
pub open spec fn nesting_depth(s: Seq<char>) -> nat {
    depth_scan(s).max_depth
}

/// The depth never exceeds the greatest depth, and neither exceeds the number of
/// characters read.
proof fn lemma_depth_bounds(s: Seq<char>)
    ensures
        depth_scan(s).depth <= depth_scan(s).max_depth <= s.len(),
        depth_scan(s).name.len() <= s.len(),
    decreases s.len(),
{
    if s.len() > 0 {
        lemma_depth_bounds(s.drop_last());
    }
}

/// Whether a tag name, in any ASCII case, names a void element.
fn void_element(name: &[char]) -> (r: bool)
    ensures
        r == is_void_name(ascii_lower(name@)),
{
    let lower = lower_chars(name);
    chars_equal_str(lower.as_slice(), "area") || chars_equal_str(lower.as_slice(), "base") || chars_equal_str(lower.as_slice(), "br") || chars_equal_str(lower.as_slice(), "col") || chars_equal_str(lower.as_slice(), "embed") || chars_equal_str(lower.as_slice(), "hr") || chars_equal_str(lower.as_slice(), "img") || chars_equal_str(lower.as_slice(), "input") || chars_equal_str(lower.as_slice(), "link") || chars_equal_str(lower.as_slice(), "meta") || chars_equal_str(lower.as_slice(), "param") || chars_equal_str(lower.as_slice(), "source") || chars_equal_str(lower.as_slice(), "track") || chars_equal_str(lower.as_slice(), "wbr")
}

/// The greatest nesting depth of the tags in `html` (see `nesting_depth`).
pub fn check_nesting_depth(html: &str) -> (r: usize)
    ensures
        r == nesting_depth(html@),
{
    let mut depth: usize = 0;
    let mut max_depth: usize = 0;
    let mut in_tag = false;
    let mut is_closing = false;
    let mut naming = false;
    let mut name: Vec<char> = Vec::new();
    let mut last_slash = false;
    let len = html.unicode_len();
    for c in it: html.chars()
        invariant
            it.seq() == html@,
            len == html@.len(),
            depth_scan(html@.take(it.index() as int)) == (DepthScan {
                depth: depth as nat,
                max_depth: max_depth as nat,
                in_tag,
                is_closing,
                naming,
                name: name@,
                last_slash,
            }),
    {
        let ghost before = html@.take(it.index() as int);
        proof {
            lemma_depth_bounds(before);
            assert(html@.take(it.index() + 1).drop_last() == before);
        }
        if c == '<' {
            in_tag = true;
            is_closing = false;
            naming = true;
            name = Vec::new();
            last_slash = false;
        } else if !in_tag {
        } else if c == '>' {
            if is_closing {
                if depth > 0 {
                    depth = depth - 1;
                }
            } else if !last_slash && !void_element(name.as_slice()) {
                depth += 1;
                if depth > max_depth {
                    max_depth = depth;
                }
            }
            in_tag = false;
            is_closing = false;
            naming = false;
            name = Vec::new();
            last_slash = false;
        } else if c == '/' {
            if naming && name.len() == 0 {
                is_closing = true;
            } else {
                naming = false;
            }
            last_slash = true;
        } else if char_is_whitespace(c) {
            naming = false;
            last_slash = false;
        } else {
            if naming {
                name.push(c);
            }
            last_slash = false;
        }
        proof {
            assert(name@ =~= depth_scan(html@.take(it.index() + 1)).name);
        }
    }
    proof {
        assert(html@.take(html@.len() as int) == html@);
    }
    max_depth
}

// ---------------------------------------------------------------------------
// Laws
// ---------------------------------------------------------------------------

/// No opening text `<tag` (in any ASCII case) is followed, anywhere later, by a `>`:
/// no start tag of a `tag` element is complete.
pub open spec fn no_start_tag(r: Seq<char>, tag: Seq<char>) -> bool {
    forall|i: int, j: int|
        #![trigger occurs_at(ascii_lower(r), open_pattern(tag), i), r[j]]
        occurs_at(ascii_lower(r), open_pattern(tag), i) && i <= j < r.len() ==> r[j] != '>'
}

/// Text that element removal leaves as it is holds no complete start tag of it.
pub proof fn lemma_strip_tag_fixed(s: Seq<char>, tag: Seq<char>)
    requires
        strip_tag(s, tag) == s,
    ensures
        no_start_tag(s, tag),
{
    let low = ascii_lower(s);
    let open = open_pattern(tag);
    let close = close_pattern(tag);
    lemma_find_from(low, open, 0);
    if let Some(a) = find_from(low, open, 0) {
        lemma_find_from(low, close, a);
        lemma_find_from(s, seq!['>'], a);
        match find_from(low, close, a) {
            Some(b) => {
                lemma_strip_tag_shrinks(cut(s, a as int, (b + close.len()) as int), tag);
            },
            None => match find_from(s, seq!['>'], a) {
                Some(g) => {
                    lemma_strip_tag_shrinks(cut(s, a as int, (g + 1) as int), tag);
                },
                None => {
                    assert forall|i: int, j: int|
                        occurs_at(low, open, i) && i <= j < s.len() implies s[j] != '>' by {
                        if s[j] == '>' {
                            assert(s.subrange(j, j + 1) =~= seq!['>']);
                            assert(occurs_at(s, seq!['>'], j));
                        }
                    }
                },
            },
        }
    }
}

/// Removing a `tag` element a second time changes nothing.
pub proof fn lemma_strip_tag_idempotent(s: Seq<char>, tag: Seq<char>)
    ensures
        strip_tag(strip_tag(s, tag), tag) == strip_tag(s, tag),
    decreases s.len(),
{
    let low = ascii_lower(s);
    let open = open_pattern(tag);
    let close = close_pattern(tag);
    lemma_find_from(low, open, 0);
    if let Some(a) = find_from(low, open, 0) {
        lemma_find_from(low, close, a);
        lemma_find_from(s, seq!['>'], a);
        match find_from(low, close, a) {
            Some(b) => {
                lemma_strip_tag_idempotent(cut(s, a as int, (b + close.len()) as int), tag);
            },
            None => if let Some(g) = find_from(s, seq!['>'], a) {
                lemma_strip_tag_idempotent(cut(s, a as int, (g + 1) as int), tag);
            },
        }
    }
}

/// Removing `tag` elements from text without an opening text `<tag` changes nothing.
pub proof fn lemma_strip_tag_absent(s: Seq<char>, tag: Seq<char>)
    requires
        forall|i: int| !#[trigger] occurs_at(ascii_lower(s), open_pattern(tag), i),
    ensures
        strip_tag(s, tag) == s,
{
    lemma_find_from(ascii_lower(s), open_pattern(tag), 0);
}

/// One pass of the sanitizer never lengthens the text, and a pass that keeps the
/// length changes nothing.
pub proof fn lemma_pass_shrinks(s: Seq<char>)
    ensures
        sanitize_pass(s).len() <= s.len(),
        sanitize_pass(s).len() == s.len() ==> sanitize_pass(s) == s,
{
    let s1 = strip_tag(s, "script"@);
    let s2 = strip_tag(s1, "style"@);
    let s3 = strip_tag(s2, "iframe"@);
    let s4 = strip_tag(s3, "object"@);
    let s5 = strip_tag(s4, "embed"@);
    let s6 = strip_tag(s5, "form"@);
    let s7 = strip_handlers(s6);
    lemma_strip_tag_shrinks(s, "script"@);
    lemma_strip_tag_shrinks(s1, "style"@);
    lemma_strip_tag_shrinks(s2, "iframe"@);
    lemma_strip_tag_shrinks(s3, "object"@);
    lemma_strip_tag_shrinks(s4, "embed"@);
    lemma_strip_tag_shrinks(s5, "form"@);
    lemma_handlers_shrink(s6, 0, false);
    assert(s6.skip(0) == s6);
    lemma_remove_ci_shrinks(s7, "javascript:"@);
}

/// The sanitized text is no longer than the input, and one more pass leaves it as it is.
pub proof fn lemma_sanitized_fixed(s: Seq<char>)
    ensures
        sanitized(s).len() <= s.len(),
        sanitize_pass(sanitized(s)) == sanitized(s),
    decreases s.len(),
{
    lemma_pass_shrinks(s);
    let t = sanitize_pass(s);
    if t.len() < s.len() {
        lemma_sanitized_fixed(t);
    }
}

/// What the sanitizer's output is free of: a complete start tag of a `script`,
/// `style`, `iframe`, `object`, `embed` or `form` element; `javascript:` in any ASCII
/// case; and an event-handler attribute at a place inside a tag. It is also no longer
/// than the input.
pub proof fn lemma_sanitized_safe(s: Seq<char>)
    ensures
        sanitized(s).len() <= s.len(),
        no_start_tag(sanitized(s), "script"@),
        no_start_tag(sanitized(s), "style"@),
        no_start_tag(sanitized(s), "iframe"@),
        no_start_tag(sanitized(s), "object"@),
        no_start_tag(sanitized(s), "embed"@),
        no_start_tag(sanitized(s), "form"@),
        forall|i: int| !#[trigger] occurs_at(ascii_lower(sanitized(s)), "javascript:"@, i),
        forall|k: nat|
            k < sanitized(s).len() ==> !#[trigger] handler_starts(
                sanitized(s),
                k,
                tag_state(sanitized(s), k),
            ),
{
    lemma_sanitized_fixed(s);
    let r = sanitized(s);
    let s1 = strip_tag(r, "script"@);
    let s2 = strip_tag(s1, "style"@);
    let s3 = strip_tag(s2, "iframe"@);
    let s4 = strip_tag(s3, "object"@);
    let s5 = strip_tag(s4, "embed"@);
    let s6 = strip_tag(s5, "form"@);
    let s7 = strip_handlers(s6);
    lemma_strip_tag_shrinks(r, "script"@);
    lemma_strip_tag_shrinks(s1, "style"@);
    lemma_strip_tag_shrinks(s2, "iframe"@);
    lemma_strip_tag_shrinks(s3, "object"@);
    lemma_strip_tag_shrinks(s4, "embed"@);
    lemma_strip_tag_shrinks(s5, "form"@);
    lemma_handlers_shrink(s6, 0, false);
    assert(s6.skip(0) == s6);
    lemma_remove_ci_shrinks(s7, "javascript:"@);
    assert(s1 == r);
    assert(s2 == r);
    assert(s3 == r);
    assert(s4 == r);
    assert(s5 == r);
    assert(s6 == r);
    assert(s7 == r);
    lemma_strip_tag_fixed(r, "script"@);
    lemma_strip_tag_fixed(r, "style"@);
    lemma_strip_tag_fixed(r, "iframe"@);
    lemma_strip_tag_fixed(r, "object"@);
    lemma_strip_tag_fixed(r, "embed"@);
    lemma_strip_tag_fixed(r, "form"@);
    lemma_handlers_fixed(r);
    reveal_strlit("javascript:");
    lemma_remove_ci_complete(s7, "javascript:"@);
}

/// Outside tags nothing is dropped: from a position outside a tag, characters without
/// a `<` are all kept.
proof fn lemma_strip_handlers_no_tag(s: Seq<char>, i: nat)
    requires
        i <= s.len(),
        forall|k: int| i <= k < s.len() ==> s[k] != '<',
    ensures
        strip_handlers_from(s, i, false) == s.skip(i as int),
    decreases s.len() - i,
{
    if i < s.len() {
        lemma_strip_handlers_no_tag(s, i + 1);
        assert(s.skip(i as int) == seq![s[i as int]] + s.skip(i + 1int));
    } else {
        assert(s.skip(i as int) =~= Seq::<char>::empty());
    }
}

/// Text without `<` has no tags, so removing event handlers keeps it as it is.
pub proof fn lemma_handlers_text_kept(s: Seq<char>)
    requires
        forall|k: int| 0 <= k < s.len() ==> s[k] != '<',
    ensures
        strip_handlers(s) == s,
{
    lemma_strip_handlers_no_tag(s, 0);
    assert(s.skip(0) == s);
}

/// Where no event-handler attribute starts, removing them keeps every character.
proof fn lemma_strip_handlers_none(s: Seq<char>, i: nat)
    requires
        i <= s.len(),
        forall|k: nat| !#[trigger] handler_starts(s, k, tag_state(s, k)),
    ensures
        strip_handlers_from(s, i, tag_state(s, i)) == s.skip(i as int),
    decreases s.len() - i,
{
    if i < s.len() {
        assert(!handler_starts(s, i, tag_state(s, i)));
        assert(tag_state(s, i + 1) == if s[i as int] == '<' {
            true
        } else if s[i as int] == '>' {
            false
        } else {
            tag_state(s, i)
        });
        lemma_strip_handlers_none(s, i + 1);
        assert(s.skip(i as int) == seq![s[i as int]] + s.skip(i + 1int));
    } else {
        assert(s.skip(i as int) =~= Seq::<char>::empty());
    }
}

/// No start of an element that the sanitizer removes stands at position `i` of `s`.
pub open spec fn no_dangerous_tag_at(s: Seq<char>, i: int) -> bool {
    &&& !occurs_at(ascii_lower(s), open_pattern("script"@), i)
    &&& !occurs_at(ascii_lower(s), open_pattern("style"@), i)
    &&& !occurs_at(ascii_lower(s), open_pattern("iframe"@), i)
    &&& !occurs_at(ascii_lower(s), open_pattern("object"@), i)
    &&& !occurs_at(ascii_lower(s), open_pattern("embed"@), i)
    &&& !occurs_at(ascii_lower(s), open_pattern("form"@), i)
}

/// The element names that the sanitizer removes do not start anywhere in `s`.
pub open spec fn no_dangerous_tag(s: Seq<char>) -> bool {
    forall|i: int| #[trigger] no_dangerous_tag_at(s, i)
}

/// Safe HTML passes the sanitizer unchanged: text with none of the removed elements,
/// no place where an event-handler attribute would start, and no `javascript:` in any
/// ASCII case.
pub proof fn lemma_safe_html_unchanged(s: Seq<char>)
    requires
        no_dangerous_tag(s),
        forall|k: nat| !#[trigger] handler_starts(s, k, tag_state(s, k)),
        forall|i: int| !#[trigger] occurs_at(ascii_lower(s), "javascript:"@, i),
    ensures
        sanitized(s) == s,
{
    assert forall|i: int| !#[trigger] occurs_at(ascii_lower(s), open_pattern("script"@), i) by {
        assert(no_dangerous_tag_at(s, i));
    }
    lemma_strip_tag_absent(s, "script"@);
    assert forall|i: int| !#[trigger] occurs_at(ascii_lower(s), open_pattern("style"@), i) by {
        assert(no_dangerous_tag_at(s, i));
    }
    lemma_strip_tag_absent(s, "style"@);
    assert forall|i: int| !#[trigger] occurs_at(ascii_lower(s), open_pattern("iframe"@), i) by {
        assert(no_dangerous_tag_at(s, i));
    }
    lemma_strip_tag_absent(s, "iframe"@);
    assert forall|i: int| !#[trigger] occurs_at(ascii_lower(s), open_pattern("object"@), i) by {
        assert(no_dangerous_tag_at(s, i));
    }
    lemma_strip_tag_absent(s, "object"@);
    assert forall|i: int| !#[trigger] occurs_at(ascii_lower(s), open_pattern("embed"@), i) by {
        assert(no_dangerous_tag_at(s, i));
    }
    lemma_strip_tag_absent(s, "embed"@);
    assert forall|i: int| !#[trigger] occurs_at(ascii_lower(s), open_pattern("form"@), i) by {
        assert(no_dangerous_tag_at(s, i));
    }
    lemma_strip_tag_absent(s, "form"@);
    lemma_strip_handlers_none(s, 0);
    assert(s.skip(0) == s);
    lemma_find_from(ascii_lower(s), "javascript:"@, 0);
    reveal_strlit("javascript:");
}

/// One more character never lowers the greatest depth seen.
proof fn lemma_depth_step_monotone(st: DepthScan, c: char)
    ensures
        st.max_depth <= depth_step(st, c).max_depth,
{
}

/// The greatest nesting depth of a prefix is at most that of the whole text.
pub proof fn lemma_nesting_depth_prefix(s: Seq<char>, k: int)
    requires
        0 <= k <= s.len(),
    ensures
        nesting_depth(s.take(k)) <= nesting_depth(s),
    decreases s.len(),
{
    if k == s.len() {
        assert(s.take(k) == s);
    } else {
        lemma_depth_step_monotone(depth_scan(s.drop_last()), s.last());
        lemma_nesting_depth_prefix(s.drop_last(), k);
        assert(s.drop_last().take(k) == s.take(k));
    }
}

// ---------------------------------------------------------------------------
// Nesting depth of well-formed markup
// ---------------------------------------------------------------------------

/// Well-formed markup: text; an element with a name and children, written out as a
/// start tag, the children and an end tag; a void element (`<br>`); or a self-closing
/// tag (`<x/>`) (see `render`).
pub enum Markup {
    Text(Seq<char>),
    Element(Seq<char>, Seq<Markup>),
    Void(Seq<char>),
    SelfClosing(Seq<char>),
}

/// A tag name: not empty, made of name characters.
pub open spec fn tag_name_ok(n: Seq<char>) -> bool {
    n.len() > 0 && forall|i: int| 0 <= i < n.len() ==> name_char(#[trigger] n[i])
}

/// A character that can stand in a tag name.
pub open spec fn name_char(c: char) -> bool {
    c != '<' && c != '>' && c != '/' && !is_whitespace_char(c)
}

/// Markup whose texts hold no `<`, whose tags have names that are not empty and are
/// made of name characters, whose elements with children do not name void elements,
/// and whose void elements do.
pub open spec fn markup_ok(m: Markup) -> bool
    decreases m, 1nat,
{
    match m {
        Markup::Text(t) => forall|i: int| 0 <= i < t.len() ==> #[trigger] t[i] != '<',
        Markup::Element(n, kids) => {
            &&& tag_name_ok(n)
            &&& !is_void_name(ascii_lower(n))
            &&& markup_ok_all(kids)
        },
        Markup::Void(n) => tag_name_ok(n) && is_void_name(ascii_lower(n)),
        Markup::SelfClosing(n) => tag_name_ok(n),
    }
}

/// Every piece of `ms` is well-formed.
pub open spec fn markup_ok_all(ms: Seq<Markup>) -> bool
    decreases ms, 0nat,
{
    if ms.len() == 0 {
        true
    } else {
        markup_ok_all(ms.subrange(0, ms.len() - 1)) && markup_ok(ms[ms.len() - 1])
    }
}

/// The text of a piece of markup.
pub open spec fn render(m: Markup) -> Seq<char>
    decreases m, 1nat,
{
    match m {
        Markup::Text(t) => t,
        Markup::Element(n, kids) => seq!['<'] + n + seq!['>'] + render_all(kids) + seq!['<', '/']
            + n + seq!['>'],
        Markup::Void(n) => seq!['<'] + n + seq!['>'],
        Markup::SelfClosing(n) => seq!['<'] + n + seq!['/', '>'],
    }
}

/// The text of a sequence of markup pieces, one after the other.
pub open spec fn render_all(ms: Seq<Markup>) -> Seq<char>
    decreases ms, 0nat,
{
    if ms.len() == 0 {
        Seq::empty()
    } else {
        render_all(ms.subrange(0, ms.len() - 1)) + render(ms[ms.len() - 1])
    }
}

/// How deeply elements nest in a piece of markup: one more than its children for an
/// element, 0 for anything else.
pub open spec fn height(m: Markup) -> nat
    decreases m, 1nat,
{
    match m {
        Markup::Element(_, kids) => 1 + height_all(kids),
        _ => 0,
    }
}

/// The greatest height among `ms` (0 for none).
pub open spec fn height_all(ms: Seq<Markup>) -> nat
    decreases ms, 0nat,
{
    if ms.len() == 0 {
        0
    } else {
        let a = height_all(ms.subrange(0, ms.len() - 1));
        let b = height(ms[ms.len() - 1]);
        if a >= b {
            a
        } else {
            b
        }
    }
}

/// The scan state after the characters of `s`, starting from `st`.
pub open spec fn scan_from(st: DepthScan, s: Seq<char>) -> DepthScan
    decreases s.len(),
{
    if s.len() == 0 {
        st
    } else {
        depth_step(scan_from(st, s.drop_last()), s.last())
    }
}

/// The scan state outside any tag at depth `d` with greatest depth `m`.
pub open spec fn at_rest(d: nat, m: nat) -> DepthScan {
    DepthScan {
        depth: d,
        max_depth: m,
        in_tag: false,
        is_closing: false,
        naming: false,
        name: Seq::empty(),
        last_slash: false,
    }
}

proof fn lemma_scan_start(s: Seq<char>)
    ensures
        depth_scan(s) == scan_from(depth_start(), s),
    decreases s.len(),
{
    if s.len() > 0 {
        lemma_scan_start(s.drop_last());
    }
}

proof fn lemma_scan_concat(st: DepthScan, a: Seq<char>, b: Seq<char>)
    ensures
        scan_from(st, a + b) == scan_from(scan_from(st, a), b),
    decreases b.len(),
{
    if b.len() == 0 {
        assert(a + b == a);
    } else {
        lemma_scan_concat(st, a, b.drop_last());
        assert((a + b).drop_last() == a + b.drop_last());
        assert((a + b).last() == b.last());
    }
}

/// Outside a tag, text without `<` changes nothing.
proof fn lemma_scan_text(st: DepthScan, t: Seq<char>)
    requires
        !st.in_tag,
        forall|i: int| 0 <= i < t.len() ==> #[trigger] t[i] != '<',
    ensures
        scan_from(st, t) == st,
    decreases t.len(),
{
    if t.len() > 0 {
        assert(t[t.len() - 1] != '<');
        lemma_scan_text(st, t.drop_last());
    }
}

/// While a tag name is read, name characters add to it.
proof fn lemma_scan_name(st: DepthScan, n: Seq<char>)
    requires
        st.in_tag,
        st.naming,
        forall|i: int| 0 <= i < n.len() ==> name_char(#[trigger] n[i]),
    ensures
        scan_from(st, n) == (DepthScan {
            name: st.name + n,
            last_slash: if n.len() > 0 {
                false
            } else {
                st.last_slash
            },
            ..st
        }),
    decreases n.len(),
{
    if n.len() == 0 {
        assert(st.name + n == st.name);
    } else {
        let c = n.last();
        assert(c == n[n.len() - 1]);
        assert(name_char(c));
        lemma_scan_name(st, n.drop_last());
        assert((st.name + n.drop_last()).push(c) =~= st.name + n);
    }
}

/// One character of the scan.
proof fn lemma_scan_one(st: DepthScan, c: char)
    ensures
        scan_from(st, seq![c]) == depth_step(st, c),
{
    assert(seq![c].drop_last() =~= Seq::<char>::empty());
    assert(scan_from(st, Seq::<char>::empty()) == st);
    assert(seq![c].last() == c);
    assert(scan_from(st, seq![c]) == depth_step(scan_from(st, seq![c].drop_last()), c));
}

/// A start tag of a non-void element goes one level deeper.
proof fn lemma_scan_open(d: nat, m: nat, n: Seq<char>)
    requires
        n.len() > 0,
        forall|i: int| 0 <= i < n.len() ==> name_char(#[trigger] n[i]),
        !is_void_name(ascii_lower(n)),
    ensures
        scan_from(at_rest(d, m), seq!['<'] + n + seq!['>']) == at_rest(
            d + 1,
            if d + 1 > m {
                d + 1
            } else {
                m
            },
        ),
{
    let st0 = at_rest(d, m);
    let st1 = depth_step(st0, '<');
    lemma_scan_one(st0, '<');
    lemma_scan_concat(st0, seq!['<'], n);
    lemma_scan_name(st1, n);
    assert(Seq::<char>::empty() + n == n);
    lemma_scan_concat(st0, seq!['<'] + n, seq!['>']);
    let st2 = scan_from(st0, seq!['<'] + n);
    lemma_scan_one(st2, '>');
}

/// A void element's tag, or a self-closing tag, keeps the depth.
proof fn lemma_scan_empty_tag(d: nat, m: nat, n: Seq<char>, self_closing: bool)
    requires
        m >= d,
        tag_name_ok(n),
        !self_closing ==> is_void_name(ascii_lower(n)),
    ensures
        scan_from(
            at_rest(d, m),
            if self_closing {
                seq!['<'] + n + seq!['/', '>']
            } else {
                seq!['<'] + n + seq!['>']
            },
        ) == at_rest(d, m),
{
    let st0 = at_rest(d, m);
    let st1 = depth_step(st0, '<');
    lemma_scan_one(st0, '<');
    lemma_scan_concat(st0, seq!['<'], n);
    lemma_scan_name(st1, n);
    assert(Seq::<char>::empty() + n == n);
    let st2 = scan_from(st0, seq!['<'] + n);
    if self_closing {
        lemma_scan_concat(st0, seq!['<'] + n, seq!['/', '>']);
        lemma_scan_one(st2, '/');
        lemma_scan_one(depth_step(st2, '/'), '>');
        lemma_scan_concat(st2, seq!['/'], seq!['>']);
        assert(seq!['/'] + seq!['>'] =~= seq!['/', '>']);
    } else {
        lemma_scan_concat(st0, seq!['<'] + n, seq!['>']);
        lemma_scan_one(st2, '>');
    }
}

/// An end tag goes one level up.
proof fn lemma_scan_close(d: nat, m: nat, n: Seq<char>)
    requires
        d >= 1,
        m >= d,
        n.len() > 0,
        forall|i: int| 0 <= i < n.len() ==> name_char(#[trigger] n[i]),
    ensures
        scan_from(at_rest(d, m), seq!['<', '/'] + n + seq!['>']) == at_rest((d - 1) as nat, m),
{
    let st0 = at_rest(d, m);
    let st1 = depth_step(depth_step(st0, '<'), '/');
    lemma_scan_one(st0, '<');
    lemma_scan_one(depth_step(st0, '<'), '/');
    lemma_scan_concat(st0, seq!['<'], seq!['/']);
    assert(seq!['<'] + seq!['/'] =~= seq!['<', '/']);
    lemma_scan_concat(st0, seq!['<', '/'], n);
    lemma_scan_name(st1, n);
    assert(Seq::<char>::empty() + n == n);
    lemma_scan_concat(st0, seq!['<', '/'] + n, seq!['>']);
    let st2 = scan_from(st0, seq!['<', '/'] + n);
    lemma_scan_one(st2, '>');
}

/// Scanning a well-formed element from outside any tag comes back to the same depth,
/// having gone one level deeper than its children go.
#[verifier::spinoff_prover]
proof fn lemma_scan_element(n: Seq<char>, kids: Seq<Markup>, d: nat, mx: nat)
    requires
        markup_ok(Markup::Element(n, kids)),
        mx >= d,
    ensures
        scan_from(at_rest(d, mx), render(Markup::Element(n, kids))) == at_rest(
            d,
            if d + 1 + height_all(kids) > mx {
                d + 1 + height_all(kids)
            } else {
                mx
            },
        ),
    decreases kids, 1nat,
{
    let open = seq!['<'] + n + seq!['>'];
    let close = seq!['<', '/'] + n + seq!['>'];
    let body = render_all(kids);
    let m1 = if d + 1 > mx {
        d + 1
    } else {
        mx
    };
    lemma_scan_open(d, mx, n);
    lemma_scan_markup_all(kids, d + 1, m1);
    let h = height_all(kids);
    let m2 = if d + 1 + h > m1 {
        d + 1 + h
    } else {
        m1
    };
    lemma_scan_close(d + 1, m2, n);
    lemma_scan_concat(at_rest(d, mx), open, body);
    lemma_scan_concat(at_rest(d, mx), open + body, close);
    assert(render(Markup::Element(n, kids)) == open + body + close);
}

/// Scanning a well-formed piece from outside any tag comes back to the same depth,
/// having gone as deep as the piece's height below it.
proof fn lemma_scan_markup(m: Markup, d: nat, mx: nat)
    requires
        markup_ok(m),
        mx >= d,
    ensures
        scan_from(at_rest(d, mx), render(m)) == at_rest(
            d,
            if d + height(m) > mx {
                d + height(m)
            } else {
                mx
            },
        ),
    decreases m, 2nat,
{
    match m {
        Markup::Text(t) => {
            lemma_scan_text(at_rest(d, mx), t);
        },
        Markup::Element(n, kids) => {
            lemma_scan_element(n, kids, d, mx);
        },
        Markup::Void(n) => {
            lemma_scan_empty_tag(d, mx, n, false);
        },
        Markup::SelfClosing(n) => {
            lemma_scan_empty_tag(d, mx, n, true);
        },
    }
}

/// Scanning well-formed pieces from outside any tag comes back to the same depth,
/// having gone as deep as their greatest height below it.
proof fn lemma_scan_markup_all(ms: Seq<Markup>, d: nat, mx: nat)
    requires
        markup_ok_all(ms),
        mx >= d,
    ensures
        scan_from(at_rest(d, mx), render_all(ms)) == at_rest(
            d,
            if d + height_all(ms) > mx {
                d + height_all(ms)
            } else {
                mx
            },
        ),
    decreases ms, 0nat,
{
    if ms.len() == 0 {
    } else {
        let p = ms.subrange(0, ms.len() - 1);
        let last = ms[ms.len() - 1];
        lemma_scan_markup_all(p, d, mx);
        let hp = height_all(p);
        let m1 = if d + hp > mx {
            d + hp
        } else {
            mx
        };
        lemma_scan_markup(last, d, m1);
        lemma_scan_concat(at_rest(d, mx), render_all(p), render(last));
    }
}

/// The nesting depth of well-formed markup is the height of its element tree: sibling
/// elements add nothing, since each end tag closes what its start tag opened, and void
/// elements and self-closing tags open nothing.
pub proof fn lemma_nesting_depth_is_height(ms: Seq<Markup>)
    requires
        markup_ok_all(ms),
    ensures
        nesting_depth(render_all(ms)) == height_all(ms),
{
    lemma_scan_start(render_all(ms));
    lemma_scan_markup_all(ms, 0, 0);
}

/// Writing well-formed markup twice, one copy after the other, nests no deeper than
/// writing it once.
pub proof fn lemma_nesting_depth_repeat(ms: Seq<Markup>)
    requires
        markup_ok_all(ms),
    ensures
        nesting_depth(render_all(ms) + render_all(ms)) == nesting_depth(render_all(ms)),
{
    let r = render_all(ms);
    let h = height_all(ms);
    lemma_nesting_depth_is_height(ms);
    lemma_scan_start(r + r);
    lemma_scan_concat(depth_start(), r, r);
    lemma_scan_start(r);
    lemma_scan_markup_all(ms, 0, 0);
    lemma_scan_markup_all(ms, 0, h);
}

} // verus!
