//! Style values and maps from property names to values.
use vstd::prelude::*;
use crate::layout::engine::{all_digits, decimal_value, digit_value, trim_end_whitespace};
use crate::text::{
    ascii_lower, chars_equal_str, char_is_whitespace, chars_of, find_chars, find_from,
    is_whitespace_char, lemma_find_from, lower_chars, str_equal, string_from_chars,
};
use crate::types::Color;

verus! {

/// A style value.
#[derive(Debug)]
pub enum CssValue {
    /// A length in hundredths of a point.
    Length(i32),
    /// A number without a unit of length, in hundredths (an `em` factor or a line
    /// height).
    Number(i32),
    /// A keyword such as `bold`.
    Keyword(String),
    /// A color.
    Color(Color),
}

/// A style value as the contracts speak of it.
pub enum CssValueView {
    Length(i32),
    Number(i32),
    Keyword(Seq<char>),
    Color(Color),
}

impl View for CssValue {
    type V = CssValueView;

    open spec fn view(&self) -> CssValueView {
        match self {
            CssValue::Length(v) => CssValueView::Length(*v),
            CssValue::Number(v) => CssValueView::Number(*v),
            CssValue::Keyword(k) => CssValueView::Keyword(k@),
            CssValue::Color(c) => CssValueView::Color(*c),
        }
    }
}

/// A map from property names to style values.
#[derive(Debug)]
pub struct StyleMap {
    entries: Vec<(String, CssValue)>,
}

impl StyleMap {
    /// No property name occurs twice.
    #[verifier::type_invariant]
    spec fn keys_distinct(&self) -> bool {
        forall|i: int, j: int|
            0 <= i < j < self.entries@.len() ==> #[trigger] self.entries@[i].0@
                != #[trigger] self.entries@[j].0@
    }

    /// The position of the entry for `key`, when there is one.
    spec fn key_index(&self, key: Seq<char>) -> int {
        choose|i: int| 0 <= i < self.entries@.len() && #[trigger] self.entries@[i].0@ == key
    }

    /// Whether some entry has the property name `key`.
    spec fn has_key(&self, key: Seq<char>) -> bool {
        exists|i: int| 0 <= i < self.entries@.len() && #[trigger] self.entries@[i].0@ == key
    }

    /// The entries as a map from property names to values.
    pub closed spec fn as_map(&self) -> Map<Seq<char>, CssValueView> {
        Map::new(|k: Seq<char>| self.has_key(k), |k: Seq<char>| self.entries@[self.key_index(k)].1@)
    }

    /// With distinct names, the entry found for a name is the only one with it.
    proof fn lemma_key_index(&self, i: int)
        requires
            self.keys_distinct(),
            0 <= i < self.entries@.len(),
        ensures
            self.has_key(self.entries@[i].0@),
            self.key_index(self.entries@[i].0@) == i,
    {
        let k = self.entries@[i].0@;
        assert(self.has_key(k));
        let j = self.key_index(k);
        if j < i {
            assert(self.entries@[j].0@ != self.entries@[i].0@);
        } else if i < j {
            assert(self.entries@[i].0@ != self.entries@[j].0@);
        }
    }

    /// An empty map.
    pub fn new() -> (m: Self)
        ensures
            m@ == Map::<Seq<char>, CssValueView>::empty(),
    {
        let m = StyleMap { entries: Vec::new() };
        assert(m@ =~= Map::<Seq<char>, CssValueView>::empty());
        m
    }

    /// The position of the entry named `key`, if any.
    fn position(&self, key: &str) -> (r: Option<usize>)
        ensures
            match r {
                Some(i) => i < self.entries@.len() && self.entries@[i as int].0@ == key@,
                None => !self.has_key(key@),
            },
    {
        let n = self.entries.len();
        for i in 0..n
            invariant
                n == self.entries@.len(),
                forall|j: int| 0 <= j < i ==> self.entries@[j].0@ != key@,
        {
            if str_equal(self.entries[i].0.as_str(), key) {
                return Some(i);
            }
        }
        None
    }

    /// Sets `key` to `value`, replacing any earlier value.
    pub fn set(&mut self, key: &str, value: CssValue)
        ensures
            final(self)@ == old(self)@.insert(key@, value@),
    {
        proof {
            use_type_invariant(&*self);
        }
        let ghost old_map = self@;
        let ghost old_entries = self.entries@;
        let ghost v = value@;
        let found = self.position(key);
        let mut entries: Vec<(String, CssValue)> = Vec::new();
        std::mem::swap(&mut entries, &mut self.entries);
        match found {
            Some(i) => {
                entries.set(i, (String::from_str(key), value));
                self.entries = entries;
                proof {
                    let new_entries = self.entries@;
                    assert forall|a: int, b: int|
                        0 <= a < b < new_entries.len() implies #[trigger] new_entries[a].0@
                        != #[trigger] new_entries[b].0@ by {
                        assert(old_entries[a].0@ != old_entries[b].0@);
                    }
                    assert forall|k: Seq<char>| #[trigger]
                        self@.contains_key(k) == old_map.insert(key@, v).contains_key(k) by {
                        if self.has_key(k) {
                            let j = self.key_index(k);
                            if j != i {
                                assert(old_entries[j].0@ == k);
                            }
                        }
                        if k != key@ && old_map.contains_key(k) {
                            let j = choose|j: int|
                                0 <= j < old_entries.len() && #[trigger] old_entries[j].0@ == k;
                            assert(new_entries[j].0@ == k);
                        }
                        if k == key@ {
                            assert(new_entries[i as int].0@ == k);
                        }
                    }
                    assert forall|k: Seq<char>| #[trigger]
                        self@.contains_key(k) implies self@[k] == old_map.insert(key@, v)[k] by {
                        self.lemma_key_index(self.key_index(k));
                        let j = self.key_index(k);
                        if j != i {
                            assert(old_entries[j] == new_entries[j]);
                            assert(0 <= j < old_entries.len() && old_entries[j].0@ == k);
                        }
                    }
                    assert(self@ =~= old_map.insert(key@, v));
                }
            },
            None => {
                entries.push((String::from_str(key), value));
                self.entries = entries;
                proof {
                    let new_entries = self.entries@;
                    let last = new_entries.len() - 1;
                    assert forall|a: int, b: int|
                        0 <= a < b < new_entries.len() implies #[trigger] new_entries[a].0@
                        != #[trigger] new_entries[b].0@ by {
                        if b < last {
                            assert(old_entries[a].0@ != old_entries[b].0@);
                        } else {
                            assert(old_entries[a].0@ != key@);
                        }
                    }
                    assert forall|k: Seq<char>| #[trigger]
                        self@.contains_key(k) == old_map.insert(key@, v).contains_key(k) by {
                        if self.has_key(k) {
                            let j = self.key_index(k);
                            if j != last {
                                assert(old_entries[j].0@ == k);
                            }
                        }
                        if k != key@ && old_map.contains_key(k) {
                            let j = choose|j: int|
                                0 <= j < old_entries.len() && #[trigger] old_entries[j].0@ == k;
                            assert(new_entries[j].0@ == k);
                        }
                        if k == key@ {
                            assert(new_entries[last].0@ == k);
                        }
                    }
                    assert forall|k: Seq<char>| #[trigger]
                        self@.contains_key(k) implies self@[k] == old_map.insert(key@, v)[k] by {
                        self.lemma_key_index(self.key_index(k));
                        let j = self.key_index(k);
                        if j != last {
                            assert(old_entries[j] == new_entries[j]);
                            assert(0 <= j < old_entries.len() && old_entries[j].0@ == k);
                        }
                    }
                    assert(self@ =~= old_map.insert(key@, v));
                }
            },
        }
    }

    /// The value set for `key`, if any.
    pub fn get(&self, key: &str) -> (r: Option<&CssValue>)
        ensures
            match r {
                Some(v) => self@.contains_key(key@) && self@[key@] == v@,
                None => !self@.contains_key(key@),
            },
    {
        proof {
            use_type_invariant(self);
        }
        match self.position(key) {
            Some(i) => {
                proof {
                    self.lemma_key_index(i as int);
                }
                Some(&self.entries[i].1)
            },
            None => None,
        }
    }
}

impl View for StyleMap {
    type V = Map<Seq<char>, CssValueView>;

    open spec fn view(&self) -> Map<Seq<char>, CssValueView> {
        self.as_map()
    }
}

/// A value read back after a `set` is the value that was set, and a `set` leaves the
/// other properties as they were.
pub proof fn lemma_style_map_set_get(
    m: Map<Seq<char>, CssValueView>,
    key: Seq<char>,
    value: CssValueView,
    other: Seq<char>,
)
    ensures
        m.insert(key, value).contains_key(key),
        m.insert(key, value)[key] == value,
        other != key ==> m.insert(key, value).contains_key(other) == m.contains_key(other),
        other != key && m.contains_key(other) ==> m.insert(key, value)[other] == m[other],
{
}

// ---------------------------------------------------------------------------
// Inline style values
// ---------------------------------------------------------------------------

/// A decimal digit.
pub open spec fn is_digit(c: char) -> bool {
    '0' <= c <= '9'
}

/// The length of the leading run of digits and points of `v`.
pub open spec fn number_len(v: Seq<char>) -> nat
    decreases v.len(),
{
    if v.len() > 0 && (is_digit(v[0]) || v[0] == '.') {
        1 + number_len(v.drop_first())
    } else {
        0
    }
}

/// The first two digits of a fraction, in hundredths.
pub open spec fn fraction_hundredths(f: Seq<char>) -> nat {
    (if f.len() > 0 {
        digit_value(f[0]) * 10
    } else {
        0
    }) + (if f.len() > 1 {
        digit_value(f[1])
    } else {
        0
    })
}

/// The value in hundredths of a decimal number: at most six digits before an optional
/// point, one or more digits after it (of which the first two count), and at least one
/// digit in all.
pub open spec fn number_hundredths(num: Seq<char>) -> Option<int> {
    match find_from(num, seq!['.'], 0) {
        None => if 1 <= num.len() <= 6 && all_digits(num) {
            Some((decimal_value(num) * 100) as int)
        } else {
            None
        },
        Some(p) => {
            let ip = num.take(p as int);
            let fp = num.skip(p + 1int);
            if ip.len() <= 6 && all_digits(ip) && fp.len() >= 1 && all_digits(fp) {
                Some((decimal_value(ip) * 100 + fraction_hundredths(fp)) as int)
            } else {
                None
            }
        },
    }
}

/// The value of a length or number: a decimal number followed by `pt` (points), `px`
/// (pixels, three quarters of a point each, rounded down to a hundredth), `em` or no
/// unit (a number); a bare zero is the length zero.
pub open spec fn length_value(v: Seq<char>) -> Option<CssValueView> {
    let k = number_len(v) as int;
    let unit = v.skip(k);
    match number_hundredths(v.take(k)) {
        None => None,
        Some(h) => if unit == "pt"@ {
            Some(CssValueView::Length(h as i32))
        } else if unit == "px"@ {
            Some(CssValueView::Length((h * 3 / 4) as i32))
        } else if unit.len() == 0 && h == 0 {
            Some(CssValueView::Length(0))
        } else if unit == "em"@ || unit.len() == 0 {
            Some(CssValueView::Number(h as i32))
        } else {
            None
        },
    }
}

/// Digits at the front count toward the number's length.
proof fn lemma_number_len_digits(d: Seq<char>, u: Seq<char>)
    requires
        all_digits(d),
    ensures
        number_len(d + u) == d.len() + number_len(u),
    decreases d.len(),
{
    if d.len() > 0 {
        assert('0' <= d[0] <= '9');
        assert((d + u).drop_first() == d.drop_first() + u);
        lemma_number_len_digits(d.drop_first(), u);
    } else {
        assert(d + u == u);
    }
}

/// A number of one to six decimal digits followed by a unit is read as that length:
/// `pt` counts points, `px` three quarters of a point each, and `em` is a factor.
pub proof fn lemma_length_units(d: Seq<char>)
    requires
        1 <= d.len() <= 6,
        all_digits(d),
    ensures
        length_value(d + "pt"@) == Some(CssValueView::Length((decimal_value(d) * 100) as i32)),
        length_value(d + "px"@) == Some(CssValueView::Length((decimal_value(d) * 75) as i32)),
        length_value(d + "em"@) == Some(CssValueView::Number((decimal_value(d) * 100) as i32)),
{
    reveal_strlit("pt");
    reveal_strlit("px");
    reveal_strlit("em");
    lemma_find_from(d, seq!['.'], 0);
    if let Some(k) = find_from(d, seq!['.'], 0) {
        assert(d.subrange(k as int, k + 1int)[0] == '.');
        assert('0' <= d[k as int] <= '9');
    }
    assert(number_len("pt"@) == 0);
    assert(number_len("px"@) == 0);
    assert(number_len("em"@) == 0);
    lemma_number_len_digits(d, "pt"@);
    lemma_number_len_digits(d, "px"@);
    lemma_number_len_digits(d, "em"@);
    assert((d + "pt"@).take(d.len() as int) == d);
    assert((d + "pt"@).skip(d.len() as int) == "pt"@);
    assert((d + "px"@).take(d.len() as int) == d);
    assert((d + "px"@).skip(d.len() as int) == "px"@);
    assert((d + "em"@).take(d.len() as int) == d);
    assert((d + "em"@).skip(d.len() as int) == "em"@);
    let h = (decimal_value(d) * 100) as int;
    assert(number_hundredths(d) == Some(h));
    assert("px"@[1] != "pt"@[1]);
    assert("px"@ != "pt"@);
    assert(h * 3 / 4 == decimal_value(d) * 75);
    assert(length_value(d + "px"@) == Some(CssValueView::Length((h * 3 / 4) as i32)));
}

/// Ten to the power `n`.
pub open spec fn pow10(n: nat) -> nat
    decreases n,
{
    if n == 0 {
        1
    } else {
        10 * pow10((n - 1) as nat)
    }
}

/// The value of at most six decimal digits.
fn digits_value(d: &[char]) -> (r: u32)
    requires
        d@.len() <= 6,
        all_digits(d@),
    ensures
        r == decimal_value(d@),
        r < 1000000,
{
    let mut v: u32 = 0;
    let n = d.len();
    proof {
        assert(pow10(6) == 1000000) by {
            reveal_with_fuel(pow10, 7);
        }
        assert(d@.take(0) =~= Seq::<char>::empty());
    }
    for i in 0..n
        invariant
            n == d@.len(),
            n <= 6,
            all_digits(d@),
            v == decimal_value(d@.take(i as int)),
            v < pow10(i as nat),
            pow10(6) == 1000000,
    {
        assert(d@.take(i + 1).drop_last() == d@.take(i as int));
        assert('0' <= d@[i as int] <= '9');
        proof {
            lemma_pow10_mono((i + 1) as nat, 6);
        }
        let c = d[i] as u32 - 0x30;
        assert(pow10((i + 1) as nat) == 10 * pow10(i as nat));
        v = v * 10 + c;
    }
    assert(d@.take(n as int) == d@);
    proof {
        lemma_pow10_mono(n as nat, 6);
    }
    v
}

proof fn lemma_pow10_mono(a: nat, b: nat)
    requires
        a <= b,
    ensures
        pow10(a) <= pow10(b),
    decreases b,
{
    if a < b {
        lemma_pow10_mono(a, (b - 1) as nat);
    }
}

/// The length of the leading run of digits and points of `v`.
fn number_prefix(v: &[char]) -> (k: usize)
    ensures
        k == number_len(v@),
        k <= v@.len(),
{
    let n = v.len();
    let mut i: usize = 0;
    assert(v@.skip(0) == v@);
    while i < n && (('0' <= v[i] && v[i] <= '9') || v[i] == '.')
        invariant
            i <= n,
            n == v@.len(),
            number_len(v@) == i + number_len(v@.skip(i as int)),
        decreases n - i,
    {
        assert(v@.skip(i as int).drop_first() == v@.skip(i + 1));
        i += 1;
    }
    i
}

/// The value in hundredths of a decimal number (see `number_hundredths`).
fn parse_hundredths(num: &[char]) -> (r: Option<i32>)
    ensures
        match r {
            Some(h) => number_hundredths(num@) == Some(h as int),
            None => number_hundredths(num@) is None,
        },
        r matches Some(h) ==> 0 <= h < 100000000,
{
    let dot = vec!['.'];
    assert(dot@ =~= seq!['.']);
    proof {
        lemma_find_from(num@, dot@, 0);
    }
    match find_chars(num, dot.as_slice(), 0) {
        None => {
            if num.len() >= 1 && num.len() <= 6 && all_digit_chars(num) {
                let v = digits_value(num);
                Some((v * 100) as i32)
            } else {
                None
            }
        },
        Some(p) => {
            assert(p + 1 <= num@.len());
            assert(p < num.len());
            let ip = slice_range(num, 0, p);
            let fp = slice_range(num, p + 1, num.len());
            assert(ip@ == num@.take(p as int));
            assert(fp@ == num@.skip(p + 1));
            if ip.len() <= 6 && all_digit_chars(ip.as_slice()) && fp.len() >= 1
                && all_digit_chars(fp.as_slice()) {
                let v = digits_value(ip.as_slice());
                let f0 = (fp[0] as u32 - 0x30) * 10;
                let f1 = if fp.len() > 1 {
                    fp[1] as u32 - 0x30
                } else {
                    0
                };
                assert('0' <= fp@[0] <= '9');
                assert(fp@.len() > 1 ==> '0' <= fp@[1] <= '9');
                Some((v * 100 + f0 + f1) as i32)
            } else {
                None
            }
        },
    }
}

/// Whether every character of `v` is a decimal digit.
fn all_digit_chars(v: &[char]) -> (r: bool)
    ensures
        r == all_digits(v@),
{
    for i in 0..v.len()
        invariant
            forall|t: int| 0 <= t < i ==> '0' <= #[trigger] v@[t] <= '9',
    {
        if !('0' <= v[i] && v[i] <= '9') {
            return false;
        }
    }
    true
}

/// The characters of `v` from `a` up to `b`.
fn slice_range(v: &[char], a: usize, b: usize) -> (r: Vec<char>)
    requires
        a <= b <= v@.len(),
    ensures
        r@ == v@.subrange(a as int, b as int),
{
    let mut r: Vec<char> = Vec::new();
    for i in a..b
        invariant
            b <= v@.len(),
            r@ == v@.subrange(a as int, i as int),
    {
        r.push(v[i]);
        assert(r@ =~= v@.subrange(a as int, i + 1));
    }
    r
}

/// The value of a length or number (see `length_value`).
fn parse_length(v: &[char]) -> (r: Option<CssValue>)
    ensures
        match r {
            Some(x) => length_value(v@) == Some(x@),
            None => length_value(v@) is None,
        },
{
    let k = number_prefix(v);
    let num = slice_range(v, 0, k);
    let unit = slice_range(v, k, v.len());
    assert(num@ == v@.take(k as int));
    assert(unit@ == v@.skip(k as int));
    match parse_hundredths(num.as_slice()) {
        None => None,
        Some(h) => {
            if chars_equal_str(unit.as_slice(), "pt") {
                Some(CssValue::Length(h))
            } else if chars_equal_str(unit.as_slice(), "px") {
                Some(CssValue::Length(h / 4 * 3 + h % 4 * 3 / 4))
            } else if unit.len() == 0 && h == 0 {
                Some(CssValue::Length(0))
            } else if chars_equal_str(unit.as_slice(), "em") || unit.len() == 0 {
                Some(CssValue::Number(h))
            } else {
                None
            }
        },
    }
}

/// The colors named by CSS keywords that styles may use.
pub open spec fn named_color(v: Seq<char>) -> Option<Color> {
    if v == "black"@ {
        Some(Color { r: 0, g: 0, b: 0 })
    } else if v == "white"@ {
        Some(Color { r: 255, g: 255, b: 255 })
    } else if v == "red"@ {
        Some(Color { r: 255, g: 0, b: 0 })
    } else if v == "green"@ {
        Some(Color { r: 0, g: 128, b: 0 })
    } else if v == "blue"@ {
        Some(Color { r: 0, g: 0, b: 255 })
    } else if v == "yellow"@ {
        Some(Color { r: 255, g: 255, b: 0 })
    } else if v == "gray"@ {
        Some(Color { r: 128, g: 128, b: 128 })
    } else if v == "grey"@ {
        Some(Color { r: 128, g: 128, b: 128 })
    } else if v == "orange"@ {
        Some(Color { r: 255, g: 165, b: 0 })
    } else if v == "purple"@ {
        Some(Color { r: 128, g: 0, b: 128 })
    } else if v == "silver"@ {
        Some(Color { r: 192, g: 192, b: 192 })
    } else if v == "maroon"@ {
        Some(Color { r: 128, g: 0, b: 0 })
    } else if v == "navy"@ {
        Some(Color { r: 0, g: 0, b: 128 })
    } else if v == "teal"@ {
        Some(Color { r: 0, g: 128, b: 128 })
    } else if v == "aqua"@ {
        Some(Color { r: 0, g: 255, b: 255 })
    } else if v == "fuchsia"@ {
        Some(Color { r: 255, g: 0, b: 255 })
    } else if v == "lime"@ {
        Some(Color { r: 0, g: 255, b: 0 })
    } else if v == "olive"@ {
        Some(Color { r: 128, g: 128, b: 0 })
    } else {
        None
    }
}

/// The value of a lower-case hexadecimal digit.
pub open spec fn hex_value(c: char) -> Option<u8> {
    if '0' <= c <= '9' {
        Some(((c as u32) - 0x30) as u8)
    } else if 'a' <= c <= 'f' {
        Some(((c as u32) - 0x61 + 10) as u8)
    } else {
        None
    }
}

/// The byte written by two hexadecimal digits.
pub open spec fn hex_byte(a: char, b: char) -> Option<u8> {
    match (hex_value(a), hex_value(b)) {
        (Some(x), Some(y)) => Some((x * 16 + y) as u8),
        _ => None,
    }
}

/// The color of `#rrggbb`, or of `#rgb` (each digit doubled), in lower case.
pub open spec fn hex_color(v: Seq<char>) -> Option<Color> {
    if v.len() == 7 && v[0] == '#' {
        match (hex_byte(v[1], v[2]), hex_byte(v[3], v[4]), hex_byte(v[5], v[6])) {
            (Some(r), Some(g), Some(b)) => Some(Color { r, g, b }),
            _ => None,
        }
    } else if v.len() == 4 && v[0] == '#' {
        match (hex_byte(v[1], v[1]), hex_byte(v[2], v[2]), hex_byte(v[3], v[3])) {
            (Some(r), Some(g), Some(b)) => Some(Color { r, g, b }),
            _ => None,
        }
    } else {
        None
    }
}

/// A color channel written in decimal: one to three digits, at most 255, with
/// whitespace around them.
pub open spec fn channel(p: Seq<char>) -> Option<u8> {
    let t = trim_whitespace(p);
    if 1 <= t.len() <= 3 && all_digits(t) && decimal_value(t) <= 255 {
        Some(decimal_value(t) as u8)
    } else {
        None
    }
}

/// The color of `rgb(r, g, b)`: three decimal channels separated by commas.
pub open spec fn rgb_color(v: Seq<char>) -> Option<Color> {
    if v.len() >= 5 && v.take(4) == "rgb("@ && v.last() == ')' {
        let inner = v.subrange(4, v.len() - 1);
        match find_from(inner, seq![','], 0) {
            None => None,
            Some(a) => match find_from(inner, seq![','], a + 1) {
                None => None,
                Some(b) => if find_from(inner, seq![','], b + 1) is None {
                    match (
                        channel(inner.take(a as int)),
                        channel(inner.subrange(a + 1int, b as int)),
                        channel(inner.skip(b + 1int)),
                    ) {
                        (Some(r), Some(g), Some(b)) => Some(Color { r, g, b }),
                        _ => None,
                    }
                } else {
                    None
                },
            },
        }
    } else {
        None
    }
}

/// The color that a lower-case style value names: a hexadecimal color, an `rgb()`
/// color or a color keyword.
pub open spec fn color_value(v: Seq<char>) -> Option<Color> {
    match hex_color(v) {
        Some(c) => Some(c),
        None => match rgb_color(v) {
            Some(c) => Some(c),
            None => named_color(v),
        },
    }
}

/// The color named by `v`, if it is a color keyword.
fn named_color_of(v: &[char]) -> (r: Option<Color>)
    ensures
        r == named_color(v@),
{
    if chars_equal_str(v, "black") {
        Some(Color { r: 0, g: 0, b: 0 })
    } else if chars_equal_str(v, "white") {
        Some(Color { r: 255, g: 255, b: 255 })
    } else if chars_equal_str(v, "red") {
        Some(Color { r: 255, g: 0, b: 0 })
    } else if chars_equal_str(v, "green") {
        Some(Color { r: 0, g: 128, b: 0 })
    } else if chars_equal_str(v, "blue") {
        Some(Color { r: 0, g: 0, b: 255 })
    } else if chars_equal_str(v, "yellow") {
        Some(Color { r: 255, g: 255, b: 0 })
    } else if chars_equal_str(v, "gray") {
        Some(Color { r: 128, g: 128, b: 128 })
    } else if chars_equal_str(v, "grey") {
        Some(Color { r: 128, g: 128, b: 128 })
    } else if chars_equal_str(v, "orange") {
        Some(Color { r: 255, g: 165, b: 0 })
    } else if chars_equal_str(v, "purple") {
        Some(Color { r: 128, g: 0, b: 128 })
    } else if chars_equal_str(v, "silver") {
        Some(Color { r: 192, g: 192, b: 192 })
    } else if chars_equal_str(v, "maroon") {
        Some(Color { r: 128, g: 0, b: 0 })
    } else if chars_equal_str(v, "navy") {
        Some(Color { r: 0, g: 0, b: 128 })
    } else if chars_equal_str(v, "teal") {
        Some(Color { r: 0, g: 128, b: 128 })
    } else if chars_equal_str(v, "aqua") {
        Some(Color { r: 0, g: 255, b: 255 })
    } else if chars_equal_str(v, "fuchsia") {
        Some(Color { r: 255, g: 0, b: 255 })
    } else if chars_equal_str(v, "lime") {
        Some(Color { r: 0, g: 255, b: 0 })
    } else if chars_equal_str(v, "olive") {
        Some(Color { r: 128, g: 128, b: 0 })
    } else {
        None
    }
}

fn hex_digit(c: char) -> (r: Option<u8>)
    ensures
        r == hex_value(c),
{
    if '0' <= c && c <= '9' {
        Some((c as u32 - 0x30) as u8)
    } else if 'a' <= c && c <= 'f' {
        Some((c as u32 - 0x61 + 10) as u8)
    } else {
        None
    }
}

fn hex_pair(a: char, b: char) -> (r: Option<u8>)
    ensures
        r == hex_byte(a, b),
{
    match (hex_digit(a), hex_digit(b)) {
        (Some(x), Some(y)) => Some(x * 16 + y),
        _ => None,
    }
}

/// The color of a hexadecimal color value (see `hex_color`).
fn hex_color_of(v: &[char]) -> (r: Option<Color>)
    ensures
        r == hex_color(v@),
{
    if v.len() == 7 && v[0] == '#' {
        match (hex_pair(v[1], v[2]), hex_pair(v[3], v[4]), hex_pair(v[5], v[6])) {
            (Some(r), Some(g), Some(b)) => Some(Color { r, g, b }),
            _ => None,
        }
    } else if v.len() == 4 && v[0] == '#' {
        match (hex_pair(v[1], v[1]), hex_pair(v[2], v[2]), hex_pair(v[3], v[3])) {
            (Some(r), Some(g), Some(b)) => Some(Color { r, g, b }),
            _ => None,
        }
    } else {
        None
    }
}

/// A decimal color channel (see `channel`).
fn parse_channel(p: &[char]) -> (r: Option<u8>)
    ensures
        r == channel(p@),
{
    let t = trim_chars(p);
    if t.len() >= 1 && t.len() <= 3 && all_digit_chars(t.as_slice()) {
        let v = digits_value(t.as_slice());
        if v <= 255 {
            Some(v as u8)
        } else {
            None
        }
    } else {
        None
    }
}

/// The color of an `rgb()` value (see `rgb_color`).
fn rgb_color_of(v: &[char]) -> (r: Option<Color>)
    ensures
        r == rgb_color(v@),
{
    let n = v.len();
    if n < 5 {
        return None;
    }
    let head = slice_range(v, 0, 4);
    assert(head@ == v@.take(4));
    if !chars_equal_str(head.as_slice(), "rgb(") || v[n - 1] != ')' {
        return None;
    }
    let inner = slice_range(v, 4, n - 1);
    let comma = vec![','];
    assert(comma@ =~= seq![',']);
    proof {
        lemma_find_from(inner@, comma@, 0);
    }
    let a = match find_chars(inner.as_slice(), comma.as_slice(), 0) {
        Some(a) => a,
        None => return None,
    };
    assert(a < inner.len());
    proof {
        lemma_find_from(inner@, comma@, (a + 1) as nat);
    }
    let b = match find_chars(inner.as_slice(), comma.as_slice(), a + 1) {
        Some(b) => b,
        None => return None,
    };
    assert(b < inner.len());
    if find_chars(inner.as_slice(), comma.as_slice(), b + 1).is_some() {
        return None;
    }
    let p0 = slice_range(inner.as_slice(), 0, a);
    let p1 = slice_range(inner.as_slice(), a + 1, b);
    let p2 = slice_range(inner.as_slice(), b + 1, inner.len());
    assert(p0@ == inner@.take(a as int));
    assert(p2@ == inner@.skip(b + 1int));
    match (parse_channel(p0.as_slice()), parse_channel(p1.as_slice()), parse_channel(p2.as_slice())) {
        (Some(r), Some(g), Some(b)) => Some(Color { r, g, b }),
        _ => None,
    }
}

/// The color a lower-case style value names (see `color_value`).
fn parse_color(v: &[char]) -> (r: Option<Color>)
    ensures
        r == color_value(v@),
{
    match hex_color_of(v) {
        Some(c) => Some(c),
        None => match rgb_color_of(v) {
            Some(c) => Some(c),
            None => named_color_of(v),
        },
    }
}

/// `s` without its leading whitespace.
pub open spec fn trim_start_whitespace(s: Seq<char>) -> Seq<char>
    decreases s.len(),
{
    if s.len() > 0 && is_whitespace_char(s[0]) {
        trim_start_whitespace(s.drop_first())
    } else {
        s
    }
}

/// `s` without whitespace at either end.
pub open spec fn trim_whitespace(s: Seq<char>) -> Seq<char> {
    trim_end_whitespace(trim_start_whitespace(s))
}

/// `v` without whitespace at either end.
fn trim_chars(v: &[char]) -> (r: Vec<char>)
    ensures
        r@ == trim_whitespace(v@),
{
    let n = v.len();
    let mut a: usize = 0;
    assert(v@.skip(0) == v@);
    while a < n && char_is_whitespace(v[a])
        invariant
            a <= n,
            n == v@.len(),
            trim_start_whitespace(v@) == trim_start_whitespace(v@.skip(a as int)),
        decreases n - a,
    {
        assert(v@.skip(a as int).drop_first() == v@.skip(a + 1));
        a += 1;
    }
    assert(trim_start_whitespace(v@.skip(a as int)) == v@.skip(a as int));
    let mut b: usize = n;
    assert(v@.subrange(a as int, n as int) == v@.skip(a as int));
    while b > a && char_is_whitespace(v[b - 1])
        invariant
            a <= b <= n,
            n == v@.len(),
            trim_end_whitespace(v@.skip(a as int)) == trim_end_whitespace(
                v@.subrange(a as int, b as int),
            ),
        decreases b,
    {
        assert(v@.subrange(a as int, b as int).drop_last() == v@.subrange(a as int, b - 1));
        b -= 1;
    }
    assert(trim_end_whitespace(v@.subrange(a as int, b as int)) == v@.subrange(a as int, b as int));
    slice_range(v, a, b)
}

/// The words of `v` so far and the word being read, reading from the start.
pub open spec fn word_scan(v: Seq<char>) -> (Seq<Seq<char>>, Seq<char>)
    decreases v.len(),
{
    if v.len() == 0 {
        (Seq::empty(), Seq::empty())
    } else {
        let (ws, cur) = word_scan(v.drop_last());
        if is_whitespace_char(v.last()) {
            if cur.len() > 0 {
                (ws.push(cur), Seq::empty())
            } else {
                (ws, cur)
            }
        } else {
            (ws, cur.push(v.last()))
        }
    }
}

/// The words of `v`: its runs of characters other than whitespace.
pub open spec fn words(v: Seq<char>) -> Seq<Seq<char>> {
    let (ws, cur) = word_scan(v);
    if cur.len() > 0 {
        ws.push(cur)
    } else {
        ws
    }
}

/// The views of a sequence of character vectors.
pub open spec fn char_views(v: Seq<Vec<char>>) -> Seq<Seq<char>> {
    v.map_values(|w: Vec<char>| w@)
}

/// The words of `v` (see `words`).
fn split_words(v: &[char]) -> (r: Vec<Vec<char>>)
    ensures
        char_views(r@) == words(v@),
{
    let mut ws: Vec<Vec<char>> = Vec::new();
    let mut cur: Vec<char> = Vec::new();
    let n = v.len();
    for i in 0..n
        invariant
            n == v@.len(),
            (char_views(ws@), cur@) == word_scan(v@.take(i as int)),
    {
        assert(v@.take(i + 1).drop_last() == v@.take(i as int));
        let ghost before = char_views(ws@);
        if char_is_whitespace(v[i]) {
            if cur.len() > 0 {
                let w = cur;
                ws.push(w);
                cur = Vec::new();
                assert(char_views(ws@) =~= before.push(w@));
            }
        } else {
            cur.push(v[i]);
        }
    }
    assert(v@.take(n as int) == v@);
    if cur.len() > 0 {
        let ghost before = char_views(ws@);
        let w = cur;
        ws.push(w);
        assert(char_views(ws@) =~= before.push(w@));
    }
    ws
}

/// The length a word gives one side of a box, if it is a length.
pub open spec fn side_length(w: Seq<char>) -> Option<i32> {
    match length_value(w) {
        Some(CssValueView::Length(x)) => Some(x),
        _ => None,
    }
}

/// The top, right, bottom and left lengths that one to four words give a box, as the
/// `margin` and `padding` shorthands read them: one for all sides; vertical then
/// horizontal; top, horizontal, bottom; or each side clockwise from the top.
pub open spec fn box_sides(ws: Seq<Seq<char>>) -> Option<(i32, i32, i32, i32)> {
    if ws.len() == 1 {
        match side_length(ws[0]) {
            Some(a) => Some((a, a, a, a)),
            None => None,
        }
    } else if ws.len() == 2 {
        match (side_length(ws[0]), side_length(ws[1])) {
            (Some(a), Some(b)) => Some((a, b, a, b)),
            _ => None,
        }
    } else if ws.len() == 3 {
        match (side_length(ws[0]), side_length(ws[1]), side_length(ws[2])) {
            (Some(a), Some(b), Some(c)) => Some((a, b, c, b)),
            _ => None,
        }
    } else if ws.len() == 4 {
        match (side_length(ws[0]), side_length(ws[1]), side_length(ws[2]), side_length(ws[3])) {
            (Some(a), Some(b), Some(c), Some(d)) => Some((a, b, c, d)),
            _ => None,
        }
    } else {
        None
    }
}

/// The value of property `name` written as the lower-case `v`: a color for `color`
/// and `background-color` when `v` names one, a length or number when `v` is one,
/// and otherwise the keyword `v`.
pub open spec fn css_value(name: Seq<char>, v: Seq<char>) -> CssValueView {
    if name == "color"@ || name == "background-color"@ {
        match color_value(v) {
            Some(c) => CssValueView::Color(c),
            None => CssValueView::Keyword(v),
        }
    } else {
        match length_value(v) {
            Some(x) => x,
            None => CssValueView::Keyword(v),
        }
    }
}

/// `m` with the four sides of `margin` (or else `padding`) set.
pub open spec fn with_sides(
    m: Map<Seq<char>, CssValueView>,
    margin: bool,
    sides: (i32, i32, i32, i32),
) -> Map<Seq<char>, CssValueView> {
    let (t, r, b, l) = sides;
    if margin {
        m.insert("margin-top"@, CssValueView::Length(t)).insert(
            "margin-right"@,
            CssValueView::Length(r),
        ).insert("margin-bottom"@, CssValueView::Length(b)).insert(
            "margin-left"@,
            CssValueView::Length(l),
        )
    } else {
        m.insert("padding-top"@, CssValueView::Length(t)).insert(
            "padding-right"@,
            CssValueView::Length(r),
        ).insert("padding-bottom"@, CssValueView::Length(b)).insert(
            "padding-left"@,
            CssValueView::Length(l),
        )
    }
}

/// `m` after the declaration `d`, `name: value`: the name is trimmed and lower-cased,
/// the value trimmed and lower-cased; `margin` and `padding` with one to four
/// lengths set their four sides; a declaration without a colon, name or value, or a
/// shorthand that is not lengths, changes nothing.
pub open spec fn with_declaration(m: Map<Seq<char>, CssValueView>, d: Seq<char>) -> Map<
    Seq<char>,
    CssValueView,
> {
    match find_from(d, seq![':'], 0) {
        None => m,
        Some(i) => {
            let name = ascii_lower(trim_whitespace(d.take(i as int)));
            let value = ascii_lower(trim_whitespace(d.skip(i + 1int)));
            if name.len() == 0 || value.len() == 0 {
                m
            } else if name == "margin"@ || name == "padding"@ {
                match box_sides(words(value)) {
                    Some(sides) => with_sides(m, name == "margin"@, sides),
                    None => m,
                }
            } else {
                m.insert(name, css_value(name, value))
            }
        },
    }
}

/// The properties set by the complete declarations of `s`, and the declaration
/// being read, reading from the start.
pub open spec fn style_scan(s: Seq<char>) -> (Map<Seq<char>, CssValueView>, Seq<char>)
    decreases s.len(),
{
    if s.len() == 0 {
        (Map::empty(), Seq::empty())
    } else {
        let (m, cur) = style_scan(s.drop_last());
        if s.last() == ';' {
            (with_declaration(m, cur), Seq::empty())
        } else {
            (m, cur.push(s.last()))
        }
    }
}

/// The properties an inline `style` attribute sets: its declarations, separated by
/// `;`, applied in order, a later one replacing what an earlier one set.
pub open spec fn parsed_style(s: Seq<char>) -> Map<Seq<char>, CssValueView> {
    let (m, cur) = style_scan(s);
    with_declaration(m, cur)
}

/// A declaration sets the same properties whatever was set before it.
proof fn lemma_declaration_overrides(m: Map<Seq<char>, CssValueView>, d: Seq<char>)
    ensures
        with_declaration(m, d) == m.union_prefer_right(with_declaration(Map::empty(), d)),
{
    let e = Map::<Seq<char>, CssValueView>::empty();
    match find_from(d, seq![':'], 0) {
        None => {
            assert(m.union_prefer_right(e) =~= m);
        },
        Some(i) => {
            let name = ascii_lower(trim_whitespace(d.take(i as int)));
            let value = ascii_lower(trim_whitespace(d.skip(i + 1int)));
            if name.len() == 0 || value.len() == 0 {
                assert(m.union_prefer_right(e) =~= m);
            } else if name == "margin"@ || name == "padding"@ {
                match box_sides(words(value)) {
                    Some(sides) => {
                        assert(with_sides(m, name == "margin"@, sides) =~= m.union_prefer_right(
                            with_sides(e, name == "margin"@, sides),
                        ));
                    },
                    None => {
                        assert(m.union_prefer_right(e) =~= m);
                    },
                }
            } else {
                assert(m.insert(name, css_value(name, value)) =~= m.union_prefer_right(
                    e.insert(name, css_value(name, value)),
                ));
            }
        },
    }
}

/// Reading more declarations after a `;` adds what they set on top of what was set.
proof fn lemma_style_scan_after(p: Seq<char>, b: Seq<char>)
    requires
        style_scan(p).1 == Seq::<char>::empty(),
    ensures
        style_scan(p + b) == (
            style_scan(p).0.union_prefer_right(style_scan(b).0),
            style_scan(b).1,
        ),
    decreases b.len(),
{
    let m0 = style_scan(p).0;
    if b.len() == 0 {
        assert(p + b == p);
        assert(m0.union_prefer_right(Map::empty()) =~= m0);
    } else {
        let q = b.drop_last();
        lemma_style_scan_after(p, q);
        assert((p + b).drop_last() == p + q);
        assert((p + b).last() == b.last());
        let (mq, cq) = style_scan(q);
        if b.last() == ';' {
            lemma_declaration_overrides(m0.union_prefer_right(mq), cq);
            lemma_declaration_overrides(mq, cq);
            let w = with_declaration(Map::empty(), cq);
            assert(m0.union_prefer_right(mq).union_prefer_right(w) =~= m0.union_prefer_right(
                mq.union_prefer_right(w),
            ));
        }
    }
}

/// Declarations after a `;` override what came before for the properties they set,
/// and keep the rest: the style of `a;b` is that of `a` with that of `b` on top.
pub proof fn lemma_parsed_style_append(a: Seq<char>, b: Seq<char>)
    ensures
        parsed_style(a + seq![';'] + b) == parsed_style(a).union_prefer_right(parsed_style(b)),
{
    let p = a + seq![';'];
    assert(p.drop_last() == a);
    assert(p.last() == ';');
    assert(style_scan(p) == (parsed_style(a), Seq::<char>::empty()));
    lemma_style_scan_after(p, b);
    let (mb, cb) = style_scan(b);
    lemma_declaration_overrides(parsed_style(a).union_prefer_right(mb), cb);
    lemma_declaration_overrides(mb, cb);
    let w = with_declaration(Map::empty(), cb);
    assert(parsed_style(a).union_prefer_right(mb).union_prefer_right(w) =~= parsed_style(
        a,
    ).union_prefer_right(mb.union_prefer_right(w)));
}

/// The side lengths of a box (see `box_sides`).
fn parse_box_sides(ws: &Vec<Vec<char>>) -> (r: Option<(i32, i32, i32, i32)>)
    ensures
        r == box_sides(char_views(ws@)),
{
    let n = ws.len();
    if n == 0 || n > 4 {
        return None;
    }
    let mut v: Vec<i32> = Vec::new();
    for i in 0..n
        invariant
            n == ws@.len(),
            v@.len() == i,
            forall|k: int| 0 <= k < i ==> side_length(#[trigger] ws@[k]@) == Some(v@[k]),
    {
        match parse_length(ws[i].as_slice()) {
            Some(CssValue::Length(x)) => v.push(x),
            _ => {
                proof {
                    assert(char_views(ws@)[i as int] == ws@[i as int]@);
                }
                return None;
            },
        }
    }
    proof {
        assert forall|k: int| 0 <= k < n implies side_length(char_views(ws@)[k]) == Some(v@[k]) by {
            assert(char_views(ws@)[k] == ws@[k]@);
        }
    }
    if n == 1 {
        Some((v[0], v[0], v[0], v[0]))
    } else if n == 2 {
        Some((v[0], v[1], v[0], v[1]))
    } else if n == 3 {
        Some((v[0], v[1], v[2], v[1]))
    } else {
        Some((v[0], v[1], v[2], v[3]))
    }
}

/// The value of property `name` written as `v` (see `css_value`).
fn parse_value(name: &[char], v: &[char]) -> (r: CssValue)
    ensures
        r@ == css_value(name@, v@),
{
    if chars_equal_str(name, "color") || chars_equal_str(name, "background-color") {
        match parse_color(v) {
            Some(c) => CssValue::Color(c),
            None => CssValue::Keyword(string_from_chars(v)),
        }
    } else {
        match parse_length(v) {
            Some(x) => x,
            None => CssValue::Keyword(string_from_chars(v)),
        }
    }
}

/// Applies the declaration `d` to `m` (see `with_declaration`).
fn apply_declaration(m: &mut StyleMap, d: &[char])
    ensures
        final(m)@ == with_declaration(old(m)@, d@),
{
    let colon = vec![':'];
    assert(colon@ =~= seq![':']);
    proof {
        lemma_find_from(d@, colon@, 0);
    }
    let i = match find_chars(d, colon.as_slice(), 0) {
        Some(i) => i,
        None => return ,
    };
    assert(i < d.len());
    let raw_name = slice_range(d, 0, i);
    let raw_value = slice_range(d, i + 1, d.len());
    assert(raw_name@ == d@.take(i as int));
    assert(raw_value@ == d@.skip(i + 1int));
    let tn = trim_chars(raw_name.as_slice());
    let name = lower_chars(tn.as_slice());
    let tv = trim_chars(raw_value.as_slice());
    let value = lower_chars(tv.as_slice());
    if name.len() == 0 || value.len() == 0 {
        return ;
    }
    let is_margin = chars_equal_str(name.as_slice(), "margin");
    if is_margin || chars_equal_str(name.as_slice(), "padding") {
        let ws = split_words(value.as_slice());
        match parse_box_sides(&ws) {
            Some((t, r, b, l)) => {
                if is_margin {
                    m.set("margin-top", CssValue::Length(t));
                    m.set("margin-right", CssValue::Length(r));
                    m.set("margin-bottom", CssValue::Length(b));
                    m.set("margin-left", CssValue::Length(l));
                } else {
                    m.set("padding-top", CssValue::Length(t));
                    m.set("padding-right", CssValue::Length(r));
                    m.set("padding-bottom", CssValue::Length(b));
                    m.set("padding-left", CssValue::Length(l));
                }
            },
            None => {},
        }
    } else {
        let key = string_from_chars(name.as_slice());
        let v = parse_value(name.as_slice(), value.as_slice());
        m.set(key.as_str(), v);
    }
}

/// Parses an inline `style` attribute into the properties it sets (see
/// `parsed_style`).
pub fn parse_inline_style(css: &str) -> (m: StyleMap)
    ensures
        m@ == parsed_style(css@),
{
    let chars = chars_of(css);
    let n = chars.len();
    let mut m = StyleMap::new();
    let mut cur: Vec<char> = Vec::new();
    for i in 0..n
        invariant
            n == chars@.len(),
            (m@, cur@) == style_scan(chars@.take(i as int)),
    {
        assert(chars@.take(i + 1).drop_last() == chars@.take(i as int));
        if chars[i] == ';' {
            apply_declaration(&mut m, cur.as_slice());
            cur = Vec::new();
        } else {
            cur.push(chars[i]);
        }
    }
    assert(chars@.take(n as int) == css@);
    apply_declaration(&mut m, cur.as_slice());
    m
}

} // verus!
