//! Character-level helpers shared by the parser, the sanitizer and the layout code.
use vstd::prelude::*;

verus! {

/// ASCII lower-casing of one character: `A`..`Z` map to `a`..`z`, everything else is kept.
pub open spec fn ascii_lower_char(c: char) -> char {
    if 'A' <= c <= 'Z' {
        ((c as u32) + 32) as char
    } else {
        c
    }
}

/// ASCII lower-casing of a character sequence, character by character.
pub open spec fn ascii_lower(s: Seq<char>) -> Seq<char> {
    s.map_values(|c: char| ascii_lower_char(c))
}

/// The first index `k >= i` at which `pat` occurs in `s`, if any.
pub open spec fn find_from<A>(s: Seq<A>, pat: Seq<A>, i: nat) -> Option<nat>
    decreases s.len() + 1 - i,
{
    if i + pat.len() > s.len() {
        None
    } else if s.subrange(i as int, (i + pat.len()) as int) == pat {
        Some(i)
    } else {
        find_from(s, pat, i + 1)
    }
}

/// `pat` occurs in `s` starting at index `k`.
pub open spec fn occurs_at<A>(s: Seq<A>, pat: Seq<A>, k: int) -> bool {
    0 <= k && k + pat.len() <= s.len() && s.subrange(k, k + pat.len()) == pat
}

/// What `find_from` returns: the leftmost occurrence at or after `i`.
pub proof fn lemma_find_from<A>(s: Seq<A>, pat: Seq<A>, i: nat)
    ensures
        match find_from(s, pat, i) {
            Some(k) => {
                &&& i <= k
                &&& k + pat.len() <= s.len()
                &&& occurs_at(s, pat, k as int)
                &&& forall|j: int| i <= j < k ==> !occurs_at(s, pat, j)
            },
            None => forall|j: int| i <= j ==> !occurs_at(s, pat, j),
        },
    decreases s.len() + 1 - i,
{
    if i + pat.len() > s.len() {
    } else if s.subrange(i as int, (i + pat.len()) as int) == pat {
    } else {
        lemma_find_from(s, pat, i + 1);
    }
}

/// The standard library's `String::push`: appends one character.
#[verifier::external_body]
pub fn push_char(s: &mut String, c: char)
    ensures
        final(s)@ == old(s)@.push(c),
{
    s.push(c)
}

/// Whether `c` has the Unicode `White_Space` property, as `char::is_whitespace` decides.
pub fn char_is_whitespace(c: char) -> (r: bool)
    ensures
        r == is_whitespace_char(c),
{
    ('\u{9}' <= c && c <= '\u{d}') || c == ' ' || c == '\u{85}' || c == '\u{a0}' || c
        == '\u{1680}' || ('\u{2000}' <= c && c <= '\u{200a}') || c == '\u{2028}' || c
        == '\u{2029}' || c == '\u{202f}' || c == '\u{205f}' || c == '\u{3000}'
}

/// The characters with the Unicode `White_Space` property.
pub open spec fn is_whitespace_char(c: char) -> bool {
    ||| '\u{9}' <= c <= '\u{d}'
    ||| c == ' '
    ||| c == '\u{85}'
    ||| c == '\u{a0}'
    ||| c == '\u{1680}'
    ||| '\u{2000}' <= c <= '\u{200a}'
    ||| c == '\u{2028}'
    ||| c == '\u{2029}'
    ||| c == '\u{202f}'
    ||| c == '\u{205f}'
    ||| c == '\u{3000}'
}

/// The characters of a string slice, in order.
pub fn chars_of(s: &str) -> (v: Vec<char>)
    ensures
        v@ == s@,
{
    let mut v: Vec<char> = Vec::new();
    for c in it: s.chars()
        invariant
            v@ == it.seq().take(it.index() as int),
            it.seq() == s@,
    {
        v.push(c);
    }
    v
}

/// A `String` holding exactly the given characters.
pub fn string_from_chars(v: &[char]) -> (s: String)
    ensures
        s@ == v@,
{
    let mut s = String::new();
    let n = v.len();
    for i in 0..n
        invariant
            n == v@.len(),
            s@ == v@.take(i as int),
    {
        push_char(&mut s, v[i]);
        assert(v@.take(i + 1) == v@.take(i as int).push(v@[i as int]));
    }
    assert(v@.take(n as int) == v@);
    s
}

/// ASCII lower-casing of one character.
pub fn lower_char(c: char) -> (r: char)
    ensures
        r == ascii_lower_char(c),
{
    if 'A' <= c && c <= 'Z' {
        ((c as u8) + 32) as char
    } else {
        c
    }
}

/// ASCII lower-casing of a character sequence.
pub fn lower_chars(v: &[char]) -> (r: Vec<char>)
    ensures
        r@ == ascii_lower(v@),
{
    let mut r: Vec<char> = Vec::new();
    let n = v.len();
    for i in 0..n
        invariant
            n == v@.len(),
            r@ == ascii_lower(v@.take(i as int)),
    {
        r.push(lower_char(v[i]));
        assert(ascii_lower(v@.take(i + 1)) == ascii_lower(v@.take(i as int)).push(
            ascii_lower_char(v@[i as int]),
        ));
    }
    assert(v@.take(n as int) == v@);
    r
}

/// Whether `pat` occurs in `s` at index `i`.
pub fn occurs_here(s: &[char], pat: &[char], i: usize) -> (r: bool)
    requires
        i + pat@.len() <= s@.len(),
    ensures
        r == occurs_at(s@, pat@, i as int),
{
    let k = pat.len();
    let n = s.len();
    let mut j: usize = 0;
    while j < k
        invariant
            j <= k,
            k == pat@.len(),
            n == s@.len(),
            i + k <= s@.len(),
            forall|t: int| 0 <= t < j ==> s@[i + t] == pat@[t],
        decreases k - j,
    {
        if s[i + j] != pat[j] {
            assert(s@.subrange(i as int, i + k)[j as int] != pat@[j as int]);
            return false;
        }
        j += 1;
    }
    assert(s@.subrange(i as int, i + k) =~= pat@);
    true
}

/// The leftmost index at or after `start` at which `pat` occurs in `s`.
pub fn find_chars(s: &[char], pat: &[char], start: usize) -> (r: Option<usize>)
    ensures
        match r {
            Some(k) => find_from(s@, pat@, start as nat) == Some(k as nat),
            None => find_from(s@, pat@, start as nat) is None,
        },
{
    let n = s.len();
    let k = pat.len();
    let mut i = start;
    while i <= n && k <= n - i
        invariant
            n == s@.len(),
            k == pat@.len(),
            start <= i,
            find_from(s@, pat@, start as nat) == find_from(s@, pat@, i as nat),
        decreases n + 1 - i,
    {
        proof {
            if k == 0 {
                assert(s@.subrange(i as int, i as int) =~= pat@);
            }
        }
        if occurs_here(s, pat, i) {
            return Some(i);
        }
        i += 1;
    }
    None
}

/// Whether the characters in `v` spell out `s`.
pub fn chars_equal_str(v: &[char], s: &str) -> (r: bool)
    ensures
        r == (v@ == s@),
{
    let w = chars_of(s);
    let n = v.len();
    if n != w.len() {
        return false;
    }
    for i in 0..n
        invariant
            n == v@.len(),
            n == w@.len(),
            w@ == s@,
            forall|t: int| 0 <= t < i ==> v@[t] == w@[t],
    {
        if v[i] != w[i] {
            return false;
        }
    }
    assert(v@ =~= w@);
    true
}

/// Whether two string slices hold the same characters.
pub fn str_equal(a: &str, b: &str) -> (r: bool)
    ensures
        r == (a@ == b@),
{
    let v = chars_of(a);
    chars_equal_str(v.as_slice(), b)
}

/// Lower-casing twice is lower-casing once.
pub proof fn lemma_ascii_lower_idempotent(s: Seq<char>)
    ensures
        ascii_lower(ascii_lower(s)) == ascii_lower(s),
{
    assert(ascii_lower(ascii_lower(s)) =~= ascii_lower(s));
}

} // verus!
