//! Text, image, table and list preparation for page layout: whitespace collapsing,
//! base64 decoding, the source of an image's bytes, table rows and columns, list
//! markers and inline runs.
use vstd::prelude::*;
use crate::parser::dom::{attr_lookup, is_inline_tag, DomNode, ElementNode, HtmlTag};
use crate::text::{
    char_is_whitespace, chars_of, find_chars, find_from, is_whitespace_char, lemma_find_from,
    string_from_chars,
};
use vstd::string::StrSliceExecFns;
use crate::parser::css::{parse_inline_style, parsed_style, word_scan, words, CssValueView, StyleMap};
use crate::style::computed::{resolve_flags, resolved_flags, StyleFlags};

verus! {

// ---------------------------------------------------------------------------
// Whitespace collapsing
// ---------------------------------------------------------------------------

/// `s` with leading whitespace dropped and every later run of whitespace replaced by
/// one space (a trailing run included).
pub open spec fn squeeze_whitespace(s: Seq<char>) -> Seq<char>
    decreases s.len(),
{
    if s.len() == 0 {
        Seq::empty()
    } else {
        let r = squeeze_whitespace(s.drop_last());
        let c = s.last();
        if is_whitespace_char(c) {
            if r.len() > 0 && r.last() != ' ' {
                r.push(' ')
            } else {
                r
            }
        } else {
            r.push(c)
        }
    }
}

/// `s` without its trailing whitespace.
pub open spec fn trim_end_whitespace(s: Seq<char>) -> Seq<char>
    decreases s.len(),
{
    if s.len() > 0 && is_whitespace_char(s.last()) {
        trim_end_whitespace(s.drop_last())
    } else {
        s
    }
}

/// `s` with whitespace collapsed: no whitespace at either end, and one space for each
/// run of whitespace between other characters.
pub open spec fn collapsed(s: Seq<char>) -> Seq<char> {
    trim_end_whitespace(squeeze_whitespace(s))
}

/// Collapses runs of whitespace in `text` into single spaces and trims both ends.
pub fn collapse_whitespace(text: &str) -> (r: String)
    ensures
        r@ == collapsed(text@),
{
    let mut result: Vec<char> = Vec::new();
    let mut last_was_space = false;
    for c in it: text.chars()
        invariant
            it.seq() == text@,
            result@ == squeeze_whitespace(text@.take(it.index() as int)),
            last_was_space == (result@.len() > 0 && result@.last() == ' '),
    {
        proof {
            assert(text@.take(it.index() + 1).drop_last() == text@.take(it.index() as int));
        }
        if char_is_whitespace(c) {
            if !last_was_space && result.len() > 0 {
                result.push(' ');
                last_was_space = true;
            }
        } else {
            result.push(c);
            last_was_space = false;
        }
    }
    proof {
        assert(text@.take(text@.len() as int) == text@);
    }
    let ghost squeezed = result@;
    while result.len() > 0 && char_is_whitespace(result[result.len() - 1])
        invariant
            trim_end_whitespace(result@) == trim_end_whitespace(squeezed),
        decreases result@.len(),
    {
        result.pop();
    }
    string_from_chars(result.as_slice())
}

/// Every whitespace character of `t` is a space that follows a character other than
/// whitespace.
pub open spec fn single_spaced(t: Seq<char>) -> bool {
    forall|i: int|
        0 <= i < t.len() && is_whitespace_char(#[trigger] t[i]) ==> t[i] == ' ' && i > 0
            && !is_whitespace_char(t[i - 1])
}

/// Text in collapsed form: single-spaced, and not ending in whitespace.
pub open spec fn is_collapsed(t: Seq<char>) -> bool {
    single_spaced(t) && (t.len() > 0 ==> !is_whitespace_char(t.last()))
}

proof fn lemma_squeeze_single_spaced(s: Seq<char>)
    ensures
        single_spaced(squeeze_whitespace(s)),
    decreases s.len(),
{
    if s.len() > 0 {
        lemma_squeeze_single_spaced(s.drop_last());
        let r = squeeze_whitespace(s.drop_last());
        if r.len() > 0 {
            assert(is_whitespace_char(r.last()) ==> r.last() == ' ');
        }
    }
}

proof fn lemma_squeeze_fixed(t: Seq<char>)
    requires
        single_spaced(t),
    ensures
        squeeze_whitespace(t) == t,
    decreases t.len(),
{
    if t.len() > 0 {
        let p = t.drop_last();
        assert forall|i: int| 0 <= i < p.len() && is_whitespace_char(#[trigger] p[i]) implies p[i]
            == ' ' && i > 0 && !is_whitespace_char(p[i - 1]) by {
            assert(t[i] == p[i]);
        }
        lemma_squeeze_fixed(p);
        assert(t == p.push(t.last()));
        if is_whitespace_char(t.last()) {
            assert(t[t.len() - 1] == t.last());
        }
    }
}

proof fn lemma_trim_single_spaced(t: Seq<char>)
    requires
        single_spaced(t),
    ensures
        is_collapsed(trim_end_whitespace(t)),
    decreases t.len(),
{
    if t.len() > 0 && is_whitespace_char(t.last()) {
        let p = t.drop_last();
        assert forall|i: int| 0 <= i < p.len() && is_whitespace_char(#[trigger] p[i]) implies p[i]
            == ' ' && i > 0 && !is_whitespace_char(p[i - 1]) by {
            assert(t[i] == p[i]);
        }
        lemma_trim_single_spaced(p);
    }
}

/// The collapsed text has no whitespace at either end, and each whitespace character
/// in it is a single space between two other characters.
pub proof fn lemma_collapsed_form(s: Seq<char>)
    ensures
        is_collapsed(collapsed(s)),
{
    lemma_squeeze_single_spaced(s);
    lemma_trim_single_spaced(squeeze_whitespace(s));
}

/// Collapsing twice is collapsing once.
pub proof fn lemma_collapse_idempotent(s: Seq<char>)
    ensures
        collapsed(collapsed(s)) == collapsed(s),
{
    lemma_collapsed_form(s);
    let c = collapsed(s);
    lemma_squeeze_fixed(c);
}

/// Words joined by single spaces.
pub open spec fn join_words(ws: Seq<Seq<char>>) -> Seq<char>
    decreases ws.len(),
{
    if ws.len() == 0 {
        Seq::empty()
    } else if ws.len() == 1 {
        ws[0]
    } else {
        join_words(ws.drop_last()) + seq![' '] + ws.last()
    }
}

/// No character of `w` is whitespace.
pub open spec fn no_whitespace(w: Seq<char>) -> bool {
    forall|i: int| 0 <= i < w.len() ==> !is_whitespace_char(#[trigger] w[i])
}

/// Words joined by spaces end with the last word.
proof fn lemma_join_last(ws: Seq<Seq<char>>)
    requires
        ws.len() > 0,
        forall|k: int| 0 <= k < ws.len() ==> #[trigger] ws[k].len() > 0,
    ensures
        join_words(ws).len() > 0,
        join_words(ws).last() == ws.last().last(),
{
}

/// Squeezing reads the words so far and the word being read: the words joined by
/// spaces, then a space and the current word once a word has ended.
proof fn lemma_squeeze_words(s: Seq<char>)
    ensures
        ({
            let (ws, cur) = word_scan(s);
            &&& forall|k: int|
                0 <= k < ws.len() ==> #[trigger] ws[k].len() > 0 && no_whitespace(ws[k])
            &&& no_whitespace(cur)
            &&& squeeze_whitespace(s) == if ws.len() == 0 {
                cur
            } else {
                join_words(ws) + seq![' '] + cur
            }
        }),
    decreases s.len(),
{
    if s.len() > 0 {
        let p = s.drop_last();
        lemma_squeeze_words(p);
        let (ws, cur) = word_scan(p);
        let c = s.last();
        let r = squeeze_whitespace(p);
        if is_whitespace_char(c) {
            if cur.len() > 0 {
                assert(r.last() == cur.last());
                let ws2 = ws.push(cur);
                assert(ws2.drop_last() == ws);
                assert forall|k: int| 0 <= k < ws2.len() implies #[trigger] ws2[k].len() > 0
                    && no_whitespace(ws2[k]) by {
                    if k < ws.len() {
                        assert(ws2[k] == ws[k]);
                    }
                }
                if ws.len() == 0 {
                    assert(join_words(ws2) == cur);
                    assert(r.push(' ') == join_words(ws2) + seq![' '] + Seq::<char>::empty());
                } else {
                    assert(r.push(' ') =~= join_words(ws2) + seq![' '] + Seq::<char>::empty());
                }
            } else if ws.len() > 0 {
                assert(r.last() == ' ');
                assert(r =~= join_words(ws) + seq![' '] + cur);
            }
        } else {
            let cur2 = cur.push(c);
            assert forall|i: int| 0 <= i < cur2.len() implies !is_whitespace_char(
                #[trigger] cur2[i],
            ) by {
                if i < cur.len() {
                    assert(cur2[i] == cur[i]);
                }
            }
            if ws.len() == 0 {
                assert(r.push(c) == cur2);
            } else {
                assert(r.push(c) =~= join_words(ws) + seq![' '] + cur2);
            }
        }
    }
}

/// Collapsing keeps the words of the text, its runs of characters other than
/// whitespace, in order, and separates them by exactly one space.
pub proof fn lemma_collapsed_words(s: Seq<char>)
    ensures
        collapsed(s) == join_words(words(s)),
{
    lemma_squeeze_words(s);
    let (ws, cur) = word_scan(s);
    let q = squeeze_whitespace(s);
    if cur.len() > 0 {
        assert(!is_whitespace_char(cur.last()));
        assert(q.last() == cur.last());
        assert(trim_end_whitespace(q) == q);
        let ws2 = ws.push(cur);
        assert(words(s) == ws2);
        assert(ws2.drop_last() == ws);
        assert(ws2.last() == cur);
        if ws.len() == 0 {
            assert(join_words(ws2) == cur);
        } else {
            assert(join_words(ws2) == join_words(ws) + seq![' '] + cur);
        }
    } else if ws.len() > 0 {
        lemma_join_last(ws);
        let j = join_words(ws);
        assert(q.drop_last() =~= j);
        assert(q.last() == ' ');
        assert(!is_whitespace_char(j.last()));
        assert(trim_end_whitespace(j) == j);
        assert(trim_end_whitespace(q) == trim_end_whitespace(q.drop_last()));
        assert(words(s) == ws);
    } else {
        assert(q.len() == 0);
        assert(words(s) == ws);
    }
}

// ---------------------------------------------------------------------------
// Base64
// ---------------------------------------------------------------------------

/// Bytes that base64 decoding passes over: `=` and ASCII whitespace (space, tab, line
/// feed, form feed, carriage return).
pub open spec fn base64_skipped(b: u8) -> bool {
    b == 0x3d || b == 0x20 || b == 0x09 || b == 0x0a || b == 0x0c || b == 0x0d
}

/// The 6-bit value of a base64 digit (`A`-`Z`, `a`-`z`, `0`-`9`, `+`, `/`).
pub open spec fn sextet(b: u8) -> Option<u8> {
    if 0x41 <= b <= 0x5a {
        Some((b - 0x41) as u8)
    } else if 0x61 <= b <= 0x7a {
        Some((b - 0x61 + 26) as u8)
    } else if 0x30 <= b <= 0x39 {
        Some((b - 0x30 + 52) as u8)
    } else if b == 0x2b {
        Some(62)
    } else if b == 0x2f {
        Some(63)
    } else {
        None
    }
}

/// The 6-bit values of the digits of `b`, skipped bytes left out; `None` if `b` holds
/// a byte that is neither skipped nor a digit.
pub open spec fn sextets(b: Seq<u8>) -> Option<Seq<u8>>
    decreases b.len(),
{
    if b.len() == 0 {
        Some(Seq::empty())
    } else {
        match sextets(b.drop_last()) {
            None => None,
            Some(v) => if base64_skipped(b.last()) {
                Some(v)
            } else {
                match sextet(b.last()) {
                    Some(x) => Some(v.push(x)),
                    None => None,
                }
            },
        }
    }
}

/// Byte `j` of the bit string made of the 6-bit values `v`: every four values give
/// three bytes.
pub open spec fn decoded_byte(v: Seq<u8>, j: int) -> u8 {
    let g = j / 3;
    if j % 3 == 0 {
        (v[4 * g] * 4 + v[4 * g + 1] / 16) as u8
    } else if j % 3 == 1 {
        ((v[4 * g + 1] % 16) * 16 + v[4 * g + 2] / 4) as u8
    } else {
        ((v[4 * g + 2] % 4) * 64 + v[4 * g + 3]) as u8
    }
}

/// The whole bytes of the bit string made of the 6-bit values `v`; leftover bits are
/// dropped.
pub open spec fn decode_sextets(v: Seq<u8>) -> Seq<u8> {
    Seq::new(v.len() * 3 / 4, |j: int| decoded_byte(v, j))
}

/// The bytes that the base64 text `b` encodes, or `None` if it holds an invalid byte.
pub open spec fn base64_decoded(b: Seq<u8>) -> Option<Seq<u8>> {
    match sextets(b) {
        Some(v) => Some(decode_sextets(v)),
        None => None,
    }
}

/// The 6-bit value of a base64 digit.
fn sextet_of(b: u8) -> (r: Option<u8>)
    ensures
        r == sextet(b),
{
    if 0x41 <= b && b <= 0x5a {
        Some(b - 0x41)
    } else if 0x61 <= b && b <= 0x7a {
        Some(b - 0x61 + 26)
    } else if 0x30 <= b && b <= 0x39 {
        Some(b - 0x30 + 52)
    } else if b == 0x2b {
        Some(62)
    } else if b == 0x2f {
        Some(63)
    } else {
        None
    }
}

/// Adding one 6-bit value adds a byte unless the count of values was a multiple of four,
/// and leaves the earlier bytes as they were.
proof fn lemma_decode_push(v: Seq<u8>, x: u8)
    ensures
        ({
            let w = v.push(x);
            &&& v.len() % 4 == 0 ==> decode_sextets(w) == decode_sextets(v)
            &&& v.len() % 4 != 0 ==> decode_sextets(w) == decode_sextets(v).push(
                decoded_byte(w, (v.len() * 3 / 4) as int),
            )
        }),
{
    let w = v.push(x);
    let m = v.len() as int;
    assert(w.len() * 3 / 4 == if m % 4 == 0 {
        m * 3 / 4
    } else {
        m * 3 / 4 + 1
    });
    assert forall|j: int| 0 <= j < m * 3 / 4 implies decoded_byte(w, j) == decoded_byte(v, j) by {
        let g = j / 3;
        assert(4 * g + 3 < m || (j % 3 == 0 && 4 * g + 1 < m) || (j % 3 == 1 && 4 * g + 2 < m));
    }
    if m % 4 == 0 {
        assert(decode_sextets(w) =~= decode_sextets(v));
    } else {
        assert(decode_sextets(w) =~= decode_sextets(v).push(decoded_byte(w, (m * 3 / 4) as int)));
    }
}

/// Decode a base64 string into bytes. Ignores whitespace. Returns None on invalid input.
pub fn base64_decode(input: &str) -> (r: Option<Vec<u8>>)
    ensures
        match r {
            Some(v) => base64_decoded(vstd::utf8::encode_utf8(input@)) == Some(v@),
            None => base64_decoded(vstd::utf8::encode_utf8(input@)) is None,
        },
{
    let bytes = input.as_bytes();
    let n = bytes.len();
    let ghost b = bytes@;
    let mut buf: Vec<u8> = Vec::new();
    let mut accum: u32 = 0;
    let mut bits: u32 = 0;
    let ghost mut vals: Seq<u8> = Seq::empty();
    for i in 0..n
        invariant
            n == b.len(),
            b == bytes@,
            b == vstd::utf8::encode_utf8(input@),
            sextets(b.take(i as int)) == Some(vals),
            forall|t: int| 0 <= t < vals.len() ==> vals[t] < 64,
            buf@ == decode_sextets(vals),
            vals.len() % 4 == 0 ==> bits == 0 && accum == 0,
            vals.len() % 4 == 1 ==> bits == 6 && accum == vals.last(),
            vals.len() % 4 == 2 ==> bits == 4 && accum == vals.last() % 16,
            vals.len() % 4 == 3 ==> bits == 2 && accum == vals.last() % 4,
    {
        let c = bytes[i];
        proof {
            assert(b.take(i + 1).drop_last() == b.take(i as int));
        }
        if !(c == 0x3d || c == 0x20 || c == 0x09 || c == 0x0a || c == 0x0c || c == 0x0d) {
            let val = match sextet_of(c) {
                Some(x) => x,
                None => {
                    proof {
                        lemma_sextets_none_extends(b, (i + 1) as nat);
                        assert(b.take(n as int) == b);
                    }
                    return None;
                },
            };
            let ghost m = vals.len() as int;
            let ghost prev = if m > 0 {
                vals.last()
            } else {
                0
            };
            proof {
                lemma_decode_push(vals, val);
            }
            let v32 = val as u32;
            accum = (accum << 6) | v32;
            bits += 6;
            if bits >= 8 {
                bits -= 8;
                let byte = (accum >> bits) as u8;
                proof {
                    let w = vals.push(val);
                    let j = (m * 3 / 4) as int;
                    if m % 4 == 1 {
                        let a = prev as u32;
                        assert(a < 64 && v32 < 64 ==> ((a << 6) | v32) >> 4 == a * 4 + v32 / 16)
                            by (bit_vector);
                        assert(w[4 * (j / 3)] == prev && w[4 * (j / 3) + 1] == val);
                    } else if m % 4 == 2 {
                        let a = (prev % 16) as u32;
                        assert(a < 16 && v32 < 64 ==> ((a << 6) | v32) >> 2 == a * 16 + v32 / 4)
                            by (bit_vector);
                        assert(w[4 * (j / 3) + 1] == prev && w[4 * (j / 3) + 2] == val);
                    } else {
                        let a = (prev % 4) as u32;
                        assert(a < 4 && v32 < 64 ==> ((a << 6) | v32) >> 0 == a * 64 + v32)
                            by (bit_vector);
                        assert(w[4 * (j / 3) + 2] == prev && w[4 * (j / 3) + 3] == val);
                    }
                }
                buf.push(byte);
                proof {
                    assert(1u32 << 0u32 == 1u32 && 1u32 << 2u32 == 4u32 && 1u32 << 4u32 == 16u32)
                        by (bit_vector);
                }
                let mask: u32 = (1 << bits) - 1;
                accum = accum & mask;
                proof {
                    let v = v32;
                    if m % 4 == 1 {
                        let a = prev as u32;
                        assert(a < 64 && v < 64 ==> ((a << 6) | v) & 15u32 == v % 16) by (bit_vector);
                    } else if m % 4 == 2 {
                        let a = (prev % 16) as u32;
                        assert(a < 16 && v < 64 ==> ((a << 6) | v) & 3u32 == v % 4) by (bit_vector);
                    } else {
                        let a = (prev % 4) as u32;
                        assert(a < 4 && v < 64 ==> ((a << 6) | v) & 0u32 == 0) by (bit_vector);
                    }
                }
            } else {
                proof {
                    assert(0u32 << 6 | v32 == v32) by (bit_vector);
                }
            }
            proof {
                vals = vals.push(val);
            }
        }
    }
    proof {
        assert(b.take(n as int) == b);
    }
    Some(buf)
}

/// Once an invalid byte is read, no later bytes make the text valid.
proof fn lemma_sextets_none_extends(b: Seq<u8>, k: nat)
    requires
        k <= b.len(),
        sextets(b.take(k as int)) is None,
    ensures
        sextets(b) is None,
    decreases b.len() - k,
{
    if k < b.len() {
        assert(b.take(k + 1int).drop_last() == b.take(k as int));
        lemma_sextets_none_extends(b, k + 1);
    } else {
        assert(b.take(k as int) == b);
    }
}

/// The 6-bit values read so far determine those read after more text.
proof fn lemma_sextets_congruent(p: Seq<u8>, q: Seq<u8>, t: Seq<u8>)
    requires
        sextets(p) == sextets(q),
    ensures
        sextets(p + t) == sextets(q + t),
    decreases t.len(),
{
    if t.len() == 0 {
        assert(p + t == p);
        assert(q + t == q);
    } else {
        lemma_sextets_congruent(p, q, t.drop_last());
        assert((p + t).drop_last() == p + t.drop_last());
        assert((q + t).drop_last() == q + t.drop_last());
    }
}

/// Base64 decoding ignores `=` and whitespace: removing such a byte from anywhere in
/// the text does not change the result.
pub proof fn lemma_base64_ignores_skipped(a: Seq<u8>, c: u8, t: Seq<u8>)
    requires
        base64_skipped(c),
    ensures
        base64_decoded(a + seq![c] + t) == base64_decoded(a + t),
{
    assert((a + seq![c]).drop_last() == a);
    lemma_sextets_congruent(a + seq![c], a, t);
}

/// Base64 decoding fails exactly when the text holds a byte that is neither skipped nor
/// a base64 digit.
pub proof fn lemma_base64_invalid(b: Seq<u8>)
    ensures
        base64_decoded(b) is None <==> exists|i: int|
            0 <= i < b.len() && !base64_skipped(#[trigger] b[i]) && sextet(b[i]) is None,
    decreases b.len(),
{
    if b.len() > 0 {
        let p = b.drop_last();
        lemma_base64_invalid(p);
        if sextets(p) is None {
            let i = choose|i: int| 0 <= i < p.len() && !base64_skipped(#[trigger] p[i]) && sextet(p[i]) is None;
            assert(b[i] == p[i]);
        }
        if exists|i: int| 0 <= i < b.len() && !base64_skipped(#[trigger] b[i]) && sextet(b[i]) is None {
            let i = choose|i: int| 0 <= i < b.len() && !base64_skipped(#[trigger] b[i]) && sextet(b[i]) is None;
            if i < p.len() {
                assert(p[i] == b[i]);
            }
        }
    }
}

/// The base64 digit for a 6-bit value (`A`-`Z`, `a`-`z`, `0`-`9`, `+`, `/`).
pub open spec fn digit(x: u8) -> u8 {
    if x < 26 {
        (x + 0x41) as u8
    } else if x < 52 {
        (x - 26 + 0x61) as u8
    } else if x < 62 {
        (x - 52 + 0x30) as u8
    } else if x == 62 {
        0x2b
    } else {
        0x2f
    }
}

/// Byte `k` of `v`, or 0 past its end.
pub open spec fn byte_or_zero(v: Seq<u8>, k: int) -> int {
    if k < v.len() {
        v[k] as int
    } else {
        0
    }
}

/// The 6-bit value `k` of the standard base64 encoding of `v`: every three bytes give
/// four values, a short last group taken as if padded with zero bytes.
pub open spec fn encoded_sextet(v: Seq<u8>, k: int) -> u8 {
    let g = k / 4;
    let a = byte_or_zero(v, 3 * g);
    let b = byte_or_zero(v, 3 * g + 1);
    let c = byte_or_zero(v, 3 * g + 2);
    if k % 4 == 0 {
        (a / 4) as u8
    } else if k % 4 == 1 {
        ((a % 4) * 16 + b / 16) as u8
    } else if k % 4 == 2 {
        ((b % 16) * 4 + c / 64) as u8
    } else {
        (c % 64) as u8
    }
}

/// The number of base64 digits that encode `n` bytes.
pub open spec fn encoded_digits(n: nat) -> nat {
    (n / 3) * 4 + if n % 3 == 0 {
        0
    } else {
        n % 3 + 1
    }
}

/// The number of `=` that pad the encoding of `n` bytes to a multiple of four.
pub open spec fn padding(n: nat) -> nat {
    if n % 3 == 0 {
        0
    } else {
        (3 - n % 3) as nat
    }
}

/// The 6-bit values of the standard base64 encoding of `v`.
pub open spec fn encode_sextets(v: Seq<u8>) -> Seq<u8> {
    Seq::new(encoded_digits(v.len()), |k: int| encoded_sextet(v, k))
}

/// The standard base64 encoding of `v` (RFC 4648: `+` and `/`, `=` padding).
pub open spec fn base64_encoded(v: Seq<u8>) -> Seq<u8> {
    encode_sextets(v).map_values(|x: u8| digit(x)) + Seq::new(padding(v.len()), |k: int| 0x3du8)
}

/// Every 6-bit value is read back from its digit.
proof fn lemma_digit_sextet(x: u8)
    requires
        x < 64,
    ensures
        !base64_skipped(digit(x)),
        sextet(digit(x)) == Some(x),
{
}

/// Digits read back as the values they stand for.
proof fn lemma_sextets_of_digits(w: Seq<u8>)
    requires
        forall|k: int| 0 <= k < w.len() ==> #[trigger] w[k] < 64,
    ensures
        sextets(w.map_values(|x: u8| digit(x))) == Some(w),
    decreases w.len(),
{
    if w.len() > 0 {
        let d = w.map_values(|x: u8| digit(x));
        lemma_sextets_of_digits(w.drop_last());
        assert(d.drop_last() == w.drop_last().map_values(|x: u8| digit(x)));
        lemma_digit_sextet(w.last());
        assert(w.drop_last().push(w.last()) == w);
    }
}

/// Padding is passed over.
proof fn lemma_sextets_padding(p: Seq<u8>, n: nat)
    ensures
        sextets(p + Seq::new(n, |k: int| 0x3du8)) == sextets(p),
    decreases n,
{
    if n == 0 {
        assert(p + Seq::new(n, |k: int| 0x3du8) == p);
    } else {
        let m = (n - 1) as nat;
        lemma_sextets_padding(p, m);
        assert((p + Seq::new(n, |k: int| 0x3du8)).drop_last() == p + Seq::new(m, |k: int| 0x3du8));
    }
}

/// The three bytes of a group are read back from its four 6-bit values.
proof fn lemma_group_bytes(a: int, b: int, c: int)
    requires
        0 <= a < 256,
        0 <= b < 256,
        0 <= c < 256,
    ensures
        (a / 4) * 4 + ((a % 4) * 16 + b / 16) / 16 == a,
        (((a % 4) * 16 + b / 16) % 16) * 16 + ((b % 16) * 4 + c / 64) / 4 == b,
        (((b % 16) * 4 + c / 64) % 4) * 64 + c % 64 == c,
        a / 4 < 64,
        (a % 4) * 16 + b / 16 < 64,
        (b % 16) * 4 + c / 64 < 64,
        c % 64 < 64,
{
    assert((a / 4) * 4 + ((a % 4) * 16 + b / 16) / 16 == a) by (nonlinear_arith)
        requires
            0 <= a < 256,
            0 <= b < 256,
    ;
    assert((((a % 4) * 16 + b / 16) % 16) * 16 + ((b % 16) * 4 + c / 64) / 4 == b) by (
    nonlinear_arith)
        requires
            0 <= a < 256,
            0 <= b < 256,
            0 <= c < 256,
    ;
    assert((((b % 16) * 4 + c / 64) % 4) * 64 + c % 64 == c) by (nonlinear_arith)
        requires
            0 <= b < 256,
            0 <= c < 256,
    ;
}

/// Decoding the 6-bit values of an encoding gives the bytes back.
proof fn lemma_decode_encoded(v: Seq<u8>)
    ensures
        decode_sextets(encode_sextets(v)) == v,
{
    let w = encode_sextets(v);
    let n = v.len();
    assert(w.len() * 3 / 4 == n) by {
        assert(n == (n / 3) * 3 + n % 3);
    }
    assert forall|j: int| 0 <= j < n implies #[trigger] decoded_byte(w, j) == v[j] by {
        let g = j / 3;
        assert(j == 3 * g + j % 3);
        lemma_group_bytes(byte_or_zero(v, 3 * g), byte_or_zero(v, 3 * g + 1), byte_or_zero(
            v,
            3 * g + 2,
        ));
        assert(4 * g + 1 < w.len());
        if j % 3 >= 1 {
            assert(4 * g + 2 < w.len());
        }
        if j % 3 == 2 {
            assert(4 * g + 3 < w.len());
        }
        assert((4 * g) / 4 == g && (4 * g) % 4 == 0);
        assert((4 * g + 1) / 4 == g && (4 * g + 1) % 4 == 1);
        assert((4 * g + 2) / 4 == g && (4 * g + 2) % 4 == 2);
        assert((4 * g + 3) / 4 == g && (4 * g + 3) % 4 == 3);
    }
    assert(decode_sextets(w) =~= v);
}

/// Base64 decoding reads only the bytes it does not pass over.
proof fn lemma_sextets_filtered(w: Seq<u8>)
    ensures
        sextets(w) == sextets(w.filter(|b: u8| !base64_skipped(b))),
    decreases w.len(),
{
    if w.len() > 0 {
        let pred = |b: u8| !base64_skipped(b);
        let d = w.drop_last();
        lemma_sextets_filtered(d);
        assert(d.push(w.last()) == w);
        d.lemma_filter_push(w.last(), pred);
        if pred(w.last()) {
            let f = d.filter(pred).push(w.last());
            assert(f.drop_last() == d.filter(pred));
        }
    }
}

/// Decoding the standard base64 encoding of any bytes gives them back, and so does
/// decoding any text that differs from it only in `=` and whitespace inserted or
/// removed anywhere.
pub proof fn lemma_base64_round_trip(v: Seq<u8>, w: Seq<u8>)
    requires
        w.filter(|b: u8| !base64_skipped(b)) == base64_encoded(v).filter(
            |b: u8| !base64_skipped(b),
        ),
    ensures
        base64_decoded(base64_encoded(v)) == Some(v),
        base64_decoded(w) == Some(v),
{
    let e = base64_encoded(v);
    let s = encode_sextets(v);
    assert forall|k: int| 0 <= k < s.len() implies #[trigger] s[k] < 64 by {
        let g = k / 4;
        lemma_group_bytes(byte_or_zero(v, 3 * g), byte_or_zero(v, 3 * g + 1), byte_or_zero(
            v,
            3 * g + 2,
        ));
    }
    lemma_sextets_of_digits(s);
    lemma_sextets_padding(s.map_values(|x: u8| digit(x)), padding(v.len()));
    lemma_decode_encoded(v);
    lemma_sextets_filtered(e);
    lemma_sextets_filtered(w);
}

// ---------------------------------------------------------------------------
// Image sources
// ---------------------------------------------------------------------------

/// Where the bytes of an `<img>` come from.
#[derive(Debug)]
pub enum ImageSource {
    /// Bytes carried in the document by a `data:` URI.
    Inline(Vec<u8>),
    /// A local file path, to be read by the caller.
    Path(String),
}

/// `s` starts with `p`.
pub open spec fn starts_with(s: Seq<char>, p: Seq<char>) -> bool {
    p.len() <= s.len() && s.take(p.len() as int) == p
}

/// Whether `s` starts with `p`.
fn chars_start_with(s: &[char], p: &str) -> (r: bool)
    ensures
        r == starts_with(s@, p@),
{
    let q = chars_of(p);
    let k = q.len();
    if k > s.len() {
        return false;
    }
    for i in 0..k
        invariant
            k == q@.len(),
            q@ == p@,
            k <= s@.len(),
            forall|t: int| 0 <= t < i ==> s@[t] == q@[t],
    {
        if s[i] != q[i] {
            assert(s@.take(k as int)[i as int] != q@[i as int]);
            return false;
        }
    }
    assert(s@.take(k as int) =~= q@);
    true
}

/// The source that an image's `src` attribute value names: for a `data:` URI, the
/// base64 text after the first comma decoded (nothing without a comma or for invalid
/// base64); otherwise the value as a file path.
pub open spec fn image_source_of(src: Seq<char>) -> Option<ImageSourceView> {
    if starts_with(src, "data:"@) {
        match find_from(src, seq![','], 0) {
            None => None,
            Some(comma) => match base64_decoded(
                vstd::utf8::encode_utf8(src.skip(comma + 1int)),
            ) {
                Some(bytes) => Some(ImageSourceView::Inline(bytes)),
                None => None,
            },
        }
    } else {
        Some(ImageSourceView::Path(src))
    }
}

/// An image source as the contracts speak of it.
pub enum ImageSourceView {
    Inline(Seq<u8>),
    Path(Seq<char>),
}

impl View for ImageSource {
    type V = ImageSourceView;

    open spec fn view(&self) -> ImageSourceView {
        match self {
            ImageSource::Inline(v) => ImageSourceView::Inline(v@),
            ImageSource::Path(p) => ImageSourceView::Path(p@),
        }
    }
}

/// The source of the bytes of an `<img>` element, from its `src` attribute (see
/// `image_source_of`); nothing without a `src` attribute.
pub fn image_source(el: &ElementNode) -> (r: Option<ImageSource>)
    ensures
        match attr_lookup(el.attributes@, "src"@) {
            None => r is None,
            Some(src) => match image_source_of(src) {
                None => r is None,
                Some(v) => r matches Some(s) && s@ == v,
            },
        },
{
    let src = match el.attribute("src") {
        Some(s) => s,
        None => return None,
    };
    let chars = chars_of(src);
    let n = chars.len();
    if chars_start_with(chars.as_slice(), "data:") {
        let comma = vec![','];
        assert(comma@ =~= seq![',']);
        let comma_pos = match find_chars(chars.as_slice(), comma.as_slice(), 0) {
            Some(k) => k,
            None => return None,
        };
        proof {
            lemma_find_from(chars@, comma@, 0);
        }
        let encoded = src.substring_char(comma_pos + 1, n);
        proof {
            assert(src@.subrange(comma_pos + 1, n as int) == src@.skip(comma_pos + 1));
        }
        match base64_decode(encoded) {
            Some(bytes) => Some(ImageSource::Inline(bytes)),
            None => None,
        }
    } else {
        Some(ImageSource::Path(String::from_str(src)))
    }
}

// ---------------------------------------------------------------------------
// Table columns
// ---------------------------------------------------------------------------

/// The value of a decimal digit character.
pub open spec fn digit_value(c: char) -> nat {
    ((c as u32) - 0x30) as nat
}

/// The value of a sequence of decimal digits.
pub open spec fn decimal_value(d: Seq<char>) -> nat
    decreases d.len(),
{
    if d.len() == 0 {
        0
    } else {
        decimal_value(d.drop_last()) * 10 + digit_value(d.last())
    }
}

/// Every character of `d` is a decimal digit.
pub open spec fn all_digits(d: Seq<char>) -> bool {
    forall|i: int| 0 <= i < d.len() ==> '0' <= #[trigger] d[i] <= '9'
}

/// `s` without a leading `+`.
pub open spec fn unsigned_part(s: Seq<char>) -> Seq<char> {
    if s.len() > 0 && s[0] == '+' {
        s.skip(1)
    } else {
        s
    }
}

/// What `str::parse::<usize>` accepts: an optional `+`, then one or more decimal
/// digits whose value fits in a `usize`.
pub open spec fn parse_usize(s: Seq<char>) -> Option<usize> {
    let d = unsigned_part(s);
    if d.len() > 0 && all_digits(d) && decimal_value(d) <= usize::MAX {
        Some(decimal_value(d) as usize)
    } else {
        None
    }
}

/// A longer digit string never has a smaller value.
proof fn lemma_decimal_value_prefix(d: Seq<char>, k: int)
    requires
        0 <= k <= d.len(),
    ensures
        decimal_value(d.take(k)) <= decimal_value(d),
    decreases d.len(),
{
    if k < d.len() {
        lemma_decimal_value_prefix(d.drop_last(), k);
        assert(d.drop_last().take(k) == d.take(k));
    } else {
        assert(d.take(k) == d);
    }
}

/// The `usize` that `s` spells in decimal, as `str::parse::<usize>` reads it.
pub fn parse_usize_str(s: &str) -> (r: Option<usize>)
    ensures
        r == parse_usize(s@),
{
    let chars = chars_of(s);
    let n = chars.len();
    let start: usize = if n > 0 && chars[0] == '+' {
        1
    } else {
        0
    };
    let ghost d = unsigned_part(s@);
    if start == n {
        return None;
    }
    let mut value: usize = 0;
    let mut i = start;
    while i < n
        invariant
            n == chars@.len(),
            chars@ == s@,
            start <= i <= n,
            d == chars@.skip(start as int),
            d == unsigned_part(s@),
            forall|t: int| 0 <= t < i - start ==> '0' <= #[trigger] d[t] <= '9',
            value == decimal_value(d.take(i - start)),
        decreases n - i,
    {
        let c = chars[i];
        assert(d.take(i - start + 1).drop_last() == d.take(i - start));
        assert(d[i - start] == c);
        if c < '0' || c > '9' {
            assert(!all_digits(d));
            return None;
        }
        assert(d.take(i - start + 1).last() == c);
        assert(decimal_value(d.take(i - start + 1)) == value * 10 + digit_value(c));
        let digit = (c as u32 - 0x30) as usize;
        let next = match value.checked_mul(10) {
            Some(v) => v.checked_add(digit),
            None => None,
        };
        match next {
            Some(v) => {
                value = v;
            },
            None => {
                proof {
                    lemma_decimal_value_prefix(d, i - start + 1);
                }
                return None;
            },
        }
        i += 1;
    }
    assert(d.take(n - start) == d);
    Some(value)
}

/// The span that a table cell declares in attribute `name` (`colspan` or `rowspan`):
/// the number it holds, at least 1; 1 when it is missing or not a number.
pub open spec fn span_of(attrs: Seq<(String, String)>, name: Seq<char>) -> nat {
    match attr_lookup(attrs, name) {
        Some(v) => match parse_usize(v) {
            Some(k) => if k >= 1 {
                k as nat
            } else {
                1
            },
            None => 1,
        },
        None => 1,
    }
}

/// The span that a table cell declares in attribute `name` (see `span_of`).
pub fn cell_span(el: &ElementNode, name: &str) -> (r: usize)
    ensures
        r == span_of(el.attributes@, name@),
{
    let k = match el.attribute(name) {
        Some(v) => match parse_usize_str(v) {
            Some(k) => k,
            None => 1,
        },
        None => 1,
    };
    if k >= 1 {
        k
    } else {
        1
    }
}

/// A cell spans at least one column or row; without the attribute, or with one that is
/// not a number or is zero, exactly one; with a positive number of decimal digits,
/// that number.
pub proof fn lemma_span_values(attrs: Seq<(String, String)>, name: Seq<char>)
    ensures
        span_of(attrs, name) >= 1,
        attr_lookup(attrs, name) is None ==> span_of(attrs, name) == 1,
        forall|d: Seq<char>|
            attr_lookup(attrs, name) == Some(d) && d.len() > 0 && all_digits(d) && 1 <= #[trigger] decimal_value(d)
                <= usize::MAX ==> span_of(attrs, name) == decimal_value(d),
{
    assert forall|d: Seq<char>|
        attr_lookup(attrs, name) == Some(d) && d.len() > 0 && all_digits(d) && 1 <= #[trigger] decimal_value(d)
            <= usize::MAX implies span_of(attrs, name) == decimal_value(d) by {
        if d[0] == '+' {
            assert('0' <= d[0] <= '9');
        }
        assert(unsigned_part(d) == d);
    }
}

/// Each cell of a row takes at least one column, so a row has at least as many columns
/// as cells.
pub proof fn lemma_row_columns_cells(nodes: Seq<DomNode>)
    ensures
        row_columns(nodes) >= nodes.filter(|n: DomNode| is_cell(n)).len(),
    decreases nodes.len(),
{
    if nodes.len() > 0 {
        let p = nodes.drop_last();
        lemma_row_columns_cells(p);
        assert(p.push(nodes.last()) == nodes);
        p.lemma_filter_push(nodes.last(), |n: DomNode| is_cell(n));
        if let DomNode::Element(e) = nodes.last() {
            lemma_span_values(e.attributes@, "colspan"@);
        }
    }
}

/// A table cell: a `td` or `th` element.
pub open spec fn is_cell(n: DomNode) -> bool {
    n matches DomNode::Element(e) && (e.tag == HtmlTag::Td || e.tag == HtmlTag::Th)
}

/// The number of columns that the cells among `nodes` take, by their `colspan`.
pub open spec fn row_columns(nodes: Seq<DomNode>) -> nat
    decreases nodes.len(),
{
    if nodes.len() == 0 {
        0
    } else {
        row_columns(nodes.drop_last()) + match nodes.last() {
            DomNode::Element(e) => if e.tag == HtmlTag::Td || e.tag == HtmlTag::Th {
                span_of(e.attributes@, "colspan"@)
            } else {
                0
            },
            DomNode::Text(_) => 0,
        }
    }
}

/// The greatest column count among `rows`, or 1 when there are none.
pub open spec fn table_columns(rows: Seq<&ElementNode>) -> nat
    decreases rows.len(),
{
    if rows.len() == 0 {
        1
    } else if rows.len() == 1 {
        row_columns(rows[0].children@)
    } else {
        let rest = table_columns(rows.drop_last());
        let last = row_columns(rows.last().children@);
        if last >= rest {
            last
        } else {
            rest
        }
    }
}

/// The number of columns a table row takes.
pub fn row_column_count(row: &ElementNode) -> (r: usize)
    requires
        row_columns(row.children@) <= usize::MAX,
    ensures
        r == row_columns(row.children@),
{
    let n = row.children.len();
    let mut total: usize = 0;
    for i in 0..n
        invariant
            n == row.children@.len(),
            row_columns(row.children@) <= usize::MAX,
            total == row_columns(row.children@.take(i as int)),
    {
        proof {
            assert(row.children@.take(i + 1).drop_last() == row.children@.take(i as int));
            lemma_row_columns_prefix(row.children@, i + 1);
        }
        match &row.children[i] {
            DomNode::Element(e) => {
                if e.tag == HtmlTag::Td || e.tag == HtmlTag::Th {
                    total = total + cell_span(e, "colspan");
                }
            },
            DomNode::Text(_) => {},
        }
    }
    proof {
        assert(row.children@.take(n as int) == row.children@);
    }
    total
}

/// A prefix of the nodes takes no more columns than all of them.
proof fn lemma_row_columns_prefix(nodes: Seq<DomNode>, k: int)
    requires
        0 <= k <= nodes.len(),
    ensures
        row_columns(nodes.take(k)) <= row_columns(nodes),
    decreases nodes.len(),
{
    if k < nodes.len() {
        lemma_row_columns_prefix(nodes.drop_last(), k);
        assert(nodes.drop_last().take(k) == nodes.take(k));
    } else {
        assert(nodes.take(k) == nodes);
    }
}

/// The number of columns of a table with the given rows: the widest row, counting
/// each cell's `colspan`; 1 for no rows.
pub fn column_count(rows: &[&ElementNode]) -> (r: usize)
    requires
        forall|i: int| 0 <= i < rows@.len() ==> row_columns(#[trigger] rows@[i].children@) <= usize::MAX,
    ensures
        r == table_columns(rows@),
{
    let n = rows.len();
    if n == 0 {
        return 1;
    }
    let mut best = row_column_count(rows[0]);
    assert(rows@.take(1) =~= seq![rows@[0]]);
    for i in 1..n
        invariant
            n == rows@.len(),
            n >= 1,
            forall|j: int| 0 <= j < rows@.len() ==> row_columns(#[trigger] rows@[j].children@) <= usize::MAX,
            best == table_columns(rows@.take(i as int)),
    {
        let w = row_column_count(rows[i]);
        proof {
            assert(rows@.take(i + 1).drop_last() == rows@.take(i as int));
            assert(rows@.take(i + 1).last() == rows@[i as int]);
        }
        if w >= best {
            best = w;
        }
    }
    assert(rows@.take(n as int) == rows@);
    best
}

/// The number of columns a table row takes, or `None` when that number does not fit in
/// a `usize`.
pub fn checked_row_column_count(row: &ElementNode) -> (r: Option<usize>)
    ensures
        match r {
            Some(k) => k == row_columns(row.children@),
            None => row_columns(row.children@) > usize::MAX,
        },
{
    let n = row.children.len();
    let mut total: usize = 0;
    for i in 0..n
        invariant
            n == row.children@.len(),
            total == row_columns(row.children@.take(i as int)),
    {
        proof {
            assert(row.children@.take(i + 1).drop_last() == row.children@.take(i as int));
        }
        match &row.children[i] {
            DomNode::Element(e) => {
                if e.tag == HtmlTag::Td || e.tag == HtmlTag::Th {
                    match total.checked_add(cell_span(e, "colspan")) {
                        Some(t) => {
                            total = t;
                        },
                        None => {
                            proof {
                                lemma_row_columns_prefix(row.children@, i + 1);
                            }
                            return None;
                        },
                    }
                }
            },
            DomNode::Text(_) => {},
        }
    }
    proof {
        assert(row.children@.take(n as int) == row.children@);
    }
    Some(total)
}

/// The number of columns of a table with the given rows (see `column_count`), or `None`
/// when some row takes more columns than fit in a `usize`.
pub fn checked_column_count(rows: &[&ElementNode]) -> (r: Option<usize>)
    ensures
        match r {
            Some(k) => (forall|i: int|
                0 <= i < rows@.len() ==> row_columns(#[trigger] rows@[i].children@)
                    <= usize::MAX) && k == table_columns(rows@),
            None => exists|i: int|
                0 <= i < rows@.len() && row_columns(#[trigger] rows@[i].children@)
                    > usize::MAX,
        },
{
    let n = rows.len();
    for i in 0..n
        invariant
            n == rows@.len(),
            forall|j: int| 0 <= j < i ==> row_columns(#[trigger] rows@[j].children@) <= usize::MAX,
    {
        if checked_row_column_count(rows[i]).is_none() {
            return None;
        }
    }
    Some(column_count(rows))
}

// ---------------------------------------------------------------------------
// List markers and table rows
// ---------------------------------------------------------------------------

/// The decimal digits of `n`.
pub open spec fn decimal_text(n: nat) -> Seq<char>
    decreases n,
{
    if n < 10 {
        seq![((n + 0x30) as u32) as char]
    } else {
        decimal_text(n / 10).push((((n % 10) + 0x30) as u32) as char)
    }
}

/// The marker in front of a list item: `- ` in an unordered list, the item's number
/// and `. ` in an ordered one.
pub open spec fn marker_text(ordered: bool, index: nat) -> Seq<char> {
    if ordered {
        decimal_text(index) + seq!['.', ' ']
    } else {
        seq!['-', ' ']
    }
}

/// The digits of a number spell it: each is a decimal digit, the first is not a zero
/// unless the number is zero, and their decimal value is the number.
pub proof fn lemma_decimal_text_value(n: nat)
    ensures
        all_digits(decimal_text(n)),
        decimal_value(decimal_text(n)) == n,
        decimal_text(n).len() >= 1,
        n > 0 ==> decimal_text(n)[0] != '0',
    decreases n,
{
    let c = (((n % 10) + 0x30) as u32) as char;
    assert(c as u32 == (n % 10) + 0x30);
    assert(digit_value(c) == n % 10);
    if n < 10 {
        assert(decimal_text(n) == seq![c]);
        assert(seq![c].drop_last() =~= Seq::<char>::empty());
        assert(decimal_value(seq![c]) == decimal_value(Seq::<char>::empty()) * 10 + digit_value(c));
    } else {
        lemma_decimal_text_value(n / 10);
        let p = decimal_text(n / 10);
        let t = decimal_text(n);
        assert(t.drop_last() == p);
        assert(t[0] == p[0]);
        assert forall|i: int| 0 <= i < t.len() implies '0' <= #[trigger] t[i] <= '9' by {
            if i < p.len() {
                assert(t[i] == p[i]);
            }
        }
    }
}

/// A marker is `- ` in an unordered list, and in an ordered list the item's number in
/// decimal digits followed by `. `.
pub proof fn lemma_marker_forms(index: nat)
    ensures
        marker_text(false, index) == seq!['-', ' '],
        ({
            let m = marker_text(true, index);
            &&& m.len() >= 3
            &&& m[m.len() - 2] == '.' && m[m.len() - 1] == ' '
            &&& all_digits(m.take(m.len() - 2))
            &&& decimal_value(m.take(m.len() - 2)) == index
        }),
{
    lemma_decimal_text_value(index);
    let m = marker_text(true, index);
    assert(m.take(m.len() - 2) == decimal_text(index));
}

/// Different numbers get different markers in an ordered list.
pub proof fn lemma_marker_injective(i: nat, j: nat)
    requires
        marker_text(true, i) == marker_text(true, j),
    ensures
        i == j,
{
    lemma_decimal_text_value(i);
    lemma_decimal_text_value(j);
    let a = marker_text(true, i);
    assert(a.take(a.len() - 2) == decimal_text(i));
    assert(a.take(a.len() - 2) == decimal_text(j));
}

/// Appends the decimal digits of `n` to `v`.
fn push_decimal(v: &mut Vec<char>, n: usize)
    ensures
        final(v)@ == old(v)@ + decimal_text(n as nat),
    decreases n,
{
    if n >= 10 {
        push_decimal(v, n / 10);
    }
    let d = (n % 10) as u8;
    v.push((d + 0x30) as char);
    proof {
        assert(((d + 0x30) as char) == ((((n % 10) + 0x30) as u32) as char));
    }
}

/// The marker in front of a list item (see `marker_text`). Items are numbered from 1
/// in each ordered list.
pub fn list_marker(ordered: bool, index: usize) -> (m: String)
    ensures
        m@ == marker_text(ordered, index as nat),
{
    let mut v: Vec<char> = Vec::new();
    if ordered {
        push_decimal(&mut v, index);
        v.push('.');
        v.push(' ');
    } else {
        v.push('-');
        v.push(' ');
    }
    string_from_chars(v.as_slice())
}

/// The `tr` elements among `nodes`, and those inside `thead`, `tbody` and `tfoot`
/// elements among them, in order.
pub open spec fn rows_of(nodes: Seq<DomNode>) -> Seq<ElementNode>
    decreases nodes.len(),
{
    if nodes.len() == 0 {
        Seq::empty()
    } else {
        rows_of(nodes.drop_last()) + match nodes.last() {
            DomNode::Element(e) => if e.tag == HtmlTag::Tr {
                seq![e]
            } else if e.tag == HtmlTag::Thead || e.tag == HtmlTag::Tbody || e.tag
                == HtmlTag::Tfoot {
                direct_rows(e.children@)
            } else {
                Seq::empty()
            },
            DomNode::Text(_) => Seq::empty(),
        }
    }
}

/// The `tr` elements among `nodes`, in order.
pub open spec fn direct_rows(nodes: Seq<DomNode>) -> Seq<ElementNode>
    decreases nodes.len(),
{
    if nodes.len() == 0 {
        Seq::empty()
    } else {
        direct_rows(nodes.drop_last()) + match nodes.last() {
            DomNode::Element(e) => if e.tag == HtmlTag::Tr {
                seq![e]
            } else {
                Seq::empty()
            },
            DomNode::Text(_) => Seq::empty(),
        }
    }
}

/// Appends the `tr` elements among `nodes` to `rows`.
fn push_direct_rows<'a>(nodes: &'a [DomNode], rows: &mut Vec<&'a ElementNode>)
    ensures
        final(rows)@.map_values(|r: &ElementNode| *r) == old(rows)@.map_values(
            |r: &ElementNode| *r,
        ) + direct_rows(nodes@),
{
    let n = nodes.len();
    let ghost start = rows@;
    for i in 0..n
        invariant
            n == nodes@.len(),
            rows@.map_values(|r: &ElementNode| *r) == start.map_values(|r: &ElementNode| *r)
                + direct_rows(nodes@.take(i as int)),
    {
        proof {
            assert(nodes@.take(i + 1).drop_last() == nodes@.take(i as int));
            assert(nodes@.take(i + 1).last() == nodes@[i as int]);
        }
        let ghost before = rows@;
        if let DomNode::Element(e) = &nodes[i] {
            if e.tag == HtmlTag::Tr {
                rows.push(e);
                proof {
                    assert(rows@.map_values(|r: &ElementNode| *r) =~= before.map_values(
                        |r: &ElementNode| *r,
                    ).push(*e));
                }
            }
        }
        proof {
            assert(rows@.map_values(|r: &ElementNode| *r) =~= start.map_values(
                |r: &ElementNode| *r,
            ) + direct_rows(nodes@.take(i + 1)));
        }
    }
    proof {
        assert(nodes@.take(n as int) == nodes@);
    }
}

/// The rows of a table: its `tr` children and the `tr` children of its `thead`,
/// `tbody` and `tfoot` children, in document order.
pub fn table_rows<'a>(t: &'a ElementNode) -> (rows: Vec<&'a ElementNode>)
    ensures
        rows@.map_values(|r: &ElementNode| *r) == rows_of(t.children@),
{
    let mut rows: Vec<&'a ElementNode> = Vec::new();
    let n = t.children.len();
    for i in 0..n
        invariant
            n == t.children@.len(),
            rows@.map_values(|r: &ElementNode| *r) == rows_of(t.children@.take(i as int)),
    {
        proof {
            assert(t.children@.take(i + 1).drop_last() == t.children@.take(i as int));
        }
        if let DomNode::Element(e) = &t.children[i] {
            if e.tag == HtmlTag::Tr {
                rows.push(e);
            } else if e.tag == HtmlTag::Thead || e.tag == HtmlTag::Tbody || e.tag
                == HtmlTag::Tfoot {
                push_direct_rows(e.children.as_slice(), &mut rows);
            }
        }
        proof {
            assert(rows@.map_values(|r: &ElementNode| *r) =~= rows_of(t.children@.take(i + 1)));
        }
    }
    proof {
        assert(t.children@.take(n as int) == t.children@);
    }
    rows
}

// ---------------------------------------------------------------------------
// Inline runs
// ---------------------------------------------------------------------------

/// An element as a style resolves it: its tag and its `style` attribute.
#[derive(Debug)]
pub struct StyleStep {
    pub tag: HtmlTag,
    pub style: Option<String>,
}

/// A style step as the contracts speak of it.
pub struct StepView {
    pub tag: HtmlTag,
    pub style: Option<Seq<char>>,
}

impl View for StyleStep {
    type V = StepView;

    open spec fn view(&self) -> StepView {
        StepView {
            tag: self.tag,
            style: match self.style {
                Some(s) => Some(s@),
                None => None,
            },
        }
    }
}

/// The views of a sequence of style steps.
pub open spec fn step_views(v: Seq<StyleStep>) -> Seq<StepView> {
    v.map_values(|s: StyleStep| s@)
}

/// The style step of element `e`.
pub open spec fn step_of(e: ElementNode) -> StepView {
    StepView { tag: e.tag, style: attr_lookup(e.attributes@, "style"@) }
}

/// The properties an optional inline `style` attribute sets.
pub open spec fn inline_map(style: Option<Seq<char>>) -> Map<Seq<char>, CssValueView> {
    match style {
        Some(s) => parsed_style(s),
        None => Map::empty(),
    }
}

/// The flags of element `e` inside an element with the flags `parent`: its tag's
/// defaults, then its inline styles, over what it inherits.
pub open spec fn element_flags(e: ElementNode, parent: StyleFlags) -> StyleFlags {
    resolved_flags(e.tag, inline_map(attr_lookup(e.attributes@, "style"@)), parent)
}

/// Dropping the last step drops its view.
pub proof fn lemma_step_views_drop_last(s: Seq<StyleStep>)
    requires
        s.len() > 0,
    ensures
        step_views(s.drop_last()) == step_views(s).drop_last(),
{
    assert(step_views(s.drop_last()) =~= step_views(s).drop_last());
}

/// The style step of `e`.
pub fn style_step(e: &ElementNode) -> (r: StyleStep)
    ensures
        r@ == step_of(*e),
{
    let style = match e.style_attr() {
        Some(s) => Some(String::from_str(s)),
        None => None,
    };
    StyleStep { tag: e.tag, style }
}

/// The flags of `e` inside an element with the flags `parent` (see `element_flags`).
pub fn flags_of_element(e: &ElementNode, parent: &StyleFlags) -> (r: StyleFlags)
    ensures
        r == element_flags(*e, *parent),
{
    let m = match e.style_attr() {
        Some(s) => parse_inline_style(s),
        None => StyleMap::new(),
    };
    resolve_flags(e.tag, &m, parent)
}

/// A copy of a chain of style steps.
pub fn copy_steps(v: &Vec<StyleStep>) -> (r: Vec<StyleStep>)
    ensures
        step_views(r@) == step_views(v@),
{
    let mut r: Vec<StyleStep> = Vec::new();
    for i in 0..v.len()
        invariant
            step_views(r@) == step_views(v@.take(i as int)),
    {
        let step = StyleStep {
            tag: v[i].tag,
            style: match &v[i].style {
                Some(s) => Some(String::from_str(s.as_str())),
                None => None,
            },
        };
        let ghost before = step_views(r@);
        r.push(step);
        proof {
            assert(step_views(r@) =~= before.push(step@));
            assert(step_views(v@.take(i + 1)) =~= step_views(v@.take(i as int)).push(v@[i as int]@));
        }
    }
    proof {
        assert(v@.take(v@.len() as int) == v@);
    }
    r
}

/// A piece of inline content: collapsed text, or `"\n"` for a line break, with the
/// link target it belongs to, the inline elements around it inside its block
/// (outermost first), and its resolved flags.
#[derive(Debug)]
pub struct RunPlan {
    pub text: String,
    pub link_url: Option<String>,
    pub steps: Vec<StyleStep>,
    pub flags: StyleFlags,
}

/// A run as the contracts speak of it.
pub struct RunView {
    pub text: Seq<char>,
    pub link_url: Option<Seq<char>>,
    pub steps: Seq<StepView>,
    pub flags: StyleFlags,
}

/// An optional string by its view.
pub open spec fn opt_str_view(s: Option<&str>) -> Option<Seq<char>> {
    match s {
        Some(v) => Some(v@),
        None => None,
    }
}

impl View for RunPlan {
    type V = RunView;

    open spec fn view(&self) -> RunView {
        RunView {
            text: self.text@,
            link_url: match self.link_url {
                Some(u) => Some(u@),
                None => None,
            },
            steps: step_views(self.steps@),
            flags: self.flags,
        }
    }
}

/// The link target inside `e` when the target outside it is `link`: the `href` of an
/// `a` element that has one, else `link`.
pub open spec fn link_inside(e: ElementNode, link: Option<Seq<char>>) -> Option<Seq<char>> {
    if e.tag == HtmlTag::A {
        match attr_lookup(e.attributes@, "href"@) {
            Some(h) => Some(h),
            None => link,
        }
    } else {
        link
    }
}

/// The inline runs of `nodes` inside the link target `link` and the inline elements
/// `steps`, whose flags are `flags`: each text node gives its collapsed text unless
/// that is empty, each `br` a line break without a link, each inline element the runs
/// of its children inside its link target, its step and its flags; other elements
/// give nothing.
pub open spec fn runs_of(
    nodes: Seq<DomNode>,
    link: Option<Seq<char>>,
    steps: Seq<StepView>,
    flags: StyleFlags,
) -> Seq<RunView>
    decreases nodes,
{
    if nodes.len() == 0 {
        Seq::empty()
    } else {
        let last = nodes.len() - 1;
        runs_of(nodes.subrange(0, last), link, steps, flags) + match nodes[last] {
            DomNode::Text(t) => if collapsed(t@).len() > 0 {
                seq![RunView { text: collapsed(t@), link_url: link, steps, flags }]
            } else {
                Seq::empty()
            },
            DomNode::Element(e) => if e.tag == HtmlTag::Br {
                seq![RunView { text: seq!['\n'], link_url: None, steps, flags }]
            } else if is_inline_tag(e.tag) {
                runs_of(
                    e.children@,
                    link_inside(e, link),
                    steps.push(step_of(e)),
                    element_flags(e, flags),
                )
            } else {
                Seq::empty()
            },
        }
    }
}

/// The views of a sequence of runs.
pub open spec fn run_views(v: Seq<RunPlan>) -> Seq<RunView> {
    v.map_values(|r: RunPlan| r@)
}

fn owned_link(link: Option<&str>) -> (r: Option<String>)
    ensures
        match r {
            Some(u) => opt_str_view(link) == Some(u@),
            None => link is None,
        },
{
    match link {
        Some(l) => Some(String::from_str(l)),
        None => None,
    }
}

/// Appends the inline runs of `nodes` inside `link` and the inline elements `steps`,
/// whose flags are `flags`, to `out`.
fn push_runs(
    nodes: &[DomNode],
    link: Option<&str>,
    steps: &mut Vec<StyleStep>,
    flags: StyleFlags,
    out: &mut Vec<RunPlan>,
)
    ensures
        run_views(final(out)@) == run_views(old(out)@) + runs_of(
            nodes@,
            opt_str_view(link),
            step_views(old(steps)@),
            flags,
        ),
        step_views(final(steps)@) == step_views(old(steps)@),
    decreases nodes@,
{
    let n = nodes.len();
    let ghost start = run_views(out@);
    let ghost lv = opt_str_view(link);
    let ghost sv = step_views(steps@);
    for i in 0..n
        invariant
            n == nodes@.len(),
            lv == opt_str_view(link),
            step_views(steps@) == sv,
            run_views(out@) == start + runs_of(nodes@.take(i as int), lv, sv, flags),
    {
        proof {
            assert(nodes@.take(i + 1).subrange(0, i as int) == nodes@.take(i as int));
            assert(nodes@.take(i + 1)[i as int] == nodes@[i as int]);
        }
        let ghost before = run_views(out@);
        match &nodes[i] {
            DomNode::Text(t) => {
                let c = collapse_whitespace(t.as_str());
                if c.as_str().unicode_len() > 0 {
                    let run = RunPlan {
                        text: c,
                        link_url: owned_link(link),
                        steps: copy_steps(steps),
                        flags,
                    };
                    out.push(run);
                    proof {
                        assert(run_views(out@) =~= before.push(run@));
                    }
                }
            },
            DomNode::Element(e) => {
                if e.tag == HtmlTag::Br {
                    let run = RunPlan {
                        text: String::from_str("\n"),
                        link_url: None,
                        steps: copy_steps(steps),
                        flags,
                    };
                    proof {
                        reveal_strlit("\n");
                        assert(run.text@ =~= seq!['\n']);
                    }
                    out.push(run);
                    proof {
                        assert(run_views(out@) =~= before.push(run@));
                    }
                } else if e.tag.is_inline() {
                    let url = if e.tag == HtmlTag::A {
                        match e.attribute("href") {
                            Some(h) => Some(h),
                            None => link,
                        }
                    } else {
                        link
                    };
                    proof {
                        assert(opt_str_view(url) == link_inside(*e, lv));
                        assert(decreases_to!(nodes@ => nodes@[i as int]));
                    }
                    let inner = flags_of_element(e, &flags);
                    let ghost before_steps = steps@;
                    steps.push(style_step(e));
                    proof {
                        assert(step_views(steps@) =~= sv.push(step_of(*e)));
                    }
                    push_runs(e.children.as_slice(), url, steps, inner, out);
                    let ghost mid = steps@;
                    steps.pop();
                    proof {
                        lemma_step_views_drop_last(mid);
                        assert(step_views(steps@) =~= sv);
                    }
                }
            },
        }
        proof {
            assert(run_views(out@) =~= start + runs_of(nodes@.take(i + 1), lv, sv, flags));
        }
    }
    proof {
        assert(nodes@.take(n as int) == nodes@);
    }
}

/// The inline runs of `nodes` (see `runs_of`) inside the link target `link`, in a
/// block whose flags are `flags`.
pub fn inline_runs(nodes: &[DomNode], link: Option<&str>, flags: StyleFlags) -> (r: Vec<RunPlan>)
    ensures
        run_views(r@) == runs_of(nodes@, opt_str_view(link), Seq::empty(), flags),
{
    let mut out: Vec<RunPlan> = Vec::new();
    let mut steps: Vec<StyleStep> = Vec::new();
    push_runs(nodes, link, &mut steps, flags, &mut out);
    proof {
        assert(run_views(Seq::<RunPlan>::empty()) =~= Seq::<RunView>::empty());
        assert(step_views(Seq::<StyleStep>::empty()) =~= Seq::<StepView>::empty());
    }
    out
}

} // verus!
