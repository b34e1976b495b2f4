//! The base colors of the terminal, and how their names in the configuration
//! are read.

use vstd::prelude::*;

verus! {

/// A base color: one of the eight terminal colors, a color of the 256-color
/// palette, or a name that is not known.
#[derive(Debug, Eq, PartialEq)]
pub enum Base {
    Black,
    Red,
    Green,
    Yellow,
    Blue,
    Magenta,
    Cyan,
    White,
    Color256(u8),
    Unknown(String),
}

/// What a `Base` holds, with the unknown name as its characters.
pub enum BaseView {
    Black,
    Red,
    Green,
    Yellow,
    Blue,
    Magenta,
    Cyan,
    White,
    Color256(u8),
    Unknown(Seq<char>),
}

impl View for Base {
    type V = BaseView;

    open spec fn view(&self) -> BaseView {
        match self {
            Base::Black => BaseView::Black,
            Base::Red => BaseView::Red,
            Base::Green => BaseView::Green,
            Base::Yellow => BaseView::Yellow,
            Base::Blue => BaseView::Blue,
            Base::Magenta => BaseView::Magenta,
            Base::Cyan => BaseView::Cyan,
            Base::White => BaseView::White,
            Base::Color256(n) => BaseView::Color256(*n),
            Base::Unknown(name) => BaseView::Unknown(name@),
        }
    }
}

impl Clone for Base {
    fn clone(&self) -> (r: Base)
        ensures
            r@ == self@,
    {
        match self {
            Base::Black => Base::Black,
            Base::Red => Base::Red,
            Base::Green => Base::Green,
            Base::Yellow => Base::Yellow,
            Base::Blue => Base::Blue,
            Base::Magenta => Base::Magenta,
            Base::Cyan => Base::Cyan,
            Base::White => Base::White,
            Base::Color256(n) => Base::Color256(*n),
            Base::Unknown(name) => Base::Unknown(name.clone()),
        }
    }
}

/// The prefix of a color of the 256-color palette.
pub open spec fn palette_prefix() -> Seq<char> {
    seq!['2', '5', '6', ':']
}

/// Whether the character is a decimal digit.
pub open spec fn is_digit(c: char) -> bool {
    '0' <= c <= '9'
}

/// The number that a sequence of decimal digits stands for.
pub open spec fn digits_value(s: Seq<char>) -> nat
    decreases s.len(),
{
    if s.len() == 0 {
        0
    } else {
        digits_value(s.drop_last()) * 10 + (s.last() as u32 - '0' as u32) as nat
    }
}

/// A text without the `+` that may stand in front of a number.
pub open spec fn unsigned_part(s: Seq<char>) -> Seq<char> {
    if s.len() > 0 && s[0] == '+' {
        s.skip(1)
    } else {
        s
    }
}

/// The number of the palette that a text stands for: decimal digits, at least
/// one, after an optional `+`, with a value of at most 255.
pub open spec fn palette_number(s: Seq<char>) -> Option<u8> {
    let digits = unsigned_part(s);
    if digits.len() > 0 && (forall|i: int| 0 <= i < digits.len() ==> is_digit(#[trigger] digits[i]))
        && digits_value(digits) <= 255 {
        Some(digits_value(digits) as u8)
    } else {
        None
    }
}

/// The color of a name: `256:n` is color `n` of the palette, the eight color
/// names are their colors, `purple` is magenta too, and any other text is an
/// unknown name.
pub open spec fn color_of_name(v: Seq<char>) -> BaseView {
    if v.len() >= 4 && v.take(4) == palette_prefix() && palette_number(v.skip(4)).is_some() {
        BaseView::Color256(palette_number(v.skip(4))->Some_0)
    } else if v == "black"@ {
        BaseView::Black
    } else if v == "red"@ {
        BaseView::Red
    } else if v == "green"@ {
        BaseView::Green
    } else if v == "yellow"@ {
        BaseView::Yellow
    } else if v == "blue"@ {
        BaseView::Blue
    } else if v == "magenta"@ || v == "purple"@ {
        BaseView::Magenta
    } else if v == "cyan"@ {
        BaseView::Cyan
    } else if v == "white"@ {
        BaseView::White
    } else {
        BaseView::Unknown(v)
    }
}

/// A longer run of digits does not stand for a smaller number.
proof fn lemma_digits_value_grows(s: Seq<char>, i: int)
    requires
        0 <= i <= s.len(),
        forall|j: int| 0 <= j < s.len() ==> is_digit(#[trigger] s[j]),
    ensures
        digits_value(s.take(i)) <= digits_value(s),
    decreases s.len() - i,
{
    if i == s.len() {
        assert(s.take(i) =~= s);
    } else {
        lemma_digits_value_grows(s, i + 1);
        assert(s.take(i + 1).drop_last() =~= s.take(i));
        assert(is_digit(s[i]));
    }
}

/// Whether two texts are the same.
pub fn str_equals(a: &str, b: &str) -> (r: bool)
    ensures
        r == (a@ == b@),
{
    let n: usize = a.unicode_len();
    if n != b.unicode_len() {
        return false;
    }
    let mut i: usize = 0;
    while i < n
        invariant
            i <= n,
            n == a@.len(),
            n == b@.len(),
            forall|j: int| 0 <= j < i ==> a@[j] == b@[j],
        decreases n - i,
    {
        if a.get_char(i) != b.get_char(i) {
            return false;
        }
        i += 1;
    }
    assert(a@ =~= b@);
    true
}

/// The number of the palette that the text after position `start` stands for.
fn read_palette_number(v: &str, start: usize) -> (r: Option<u8>)
    requires
        start <= v@.len(),
    ensures
        r == palette_number(v@.skip(start as int)),
{
    let n: usize = v.unicode_len();
    let ghost text = v@.skip(start as int);
    let mut first: usize = start;
    if first < n && v.get_char(first) == '+' {
        first += 1;
    }
    let ghost digits = v@.skip(first as int);
    assert(digits =~= unsigned_part(text));
    if first == n {
        return None;
    }
    let mut value: u32 = 0;
    let mut i: usize = first;
    assert(digits.take(0).len() == 0);
    while i < n
        invariant
            first <= i <= n,
            n == v@.len(),
            digits == v@.skip(first as int),
            digits == unsigned_part(v@.skip(start as int)),
            forall|j: int| 0 <= j < i - first ==> is_digit(#[trigger] digits[j]),
            value == digits_value(digits.take(i - first)),
            value <= 255,
        decreases n - i,
    {
        let c: char = v.get_char(i);
        assert(c == digits[i - first]);
        if c < '0' || c > '9' {
            assert(!is_digit(digits[i - first]));
            return None;
        }
        assert(is_digit(digits[i - first]));
        let ghost more = digits.take(i - first + 1);
        assert(more.drop_last() =~= digits.take(i - first));
        assert(more.last() == c);
        value = value * 10 + (c as u32 - '0' as u32);
        assert(value == digits_value(more));
        if value > 255 {
            proof {
                if forall|j: int| 0 <= j < digits.len() ==> is_digit(#[trigger] digits[j]) {
                    lemma_digits_value_grows(digits, i - first + 1);
                }
            }
            return None;
        }
        i += 1;
    }
    assert(digits.take(n - first) =~= digits);
    Some(value as u8)
}

impl Base {
    /// The color that a name in the configuration stands for.
    pub fn from_name(v: &str) -> (r: Base)
        ensures
            r@ == color_of_name(v@),
    {
        let n: usize = v.unicode_len();
        if n >= 4 && v.get_char(0) == '2' && v.get_char(1) == '5' && v.get_char(2) == '6'
            && v.get_char(3) == ':' {
            assert(v@.take(4) =~= palette_prefix());
            match read_palette_number(v, 4) {
                Some(number) => {
                    return Base::Color256(number);
                },
                None => {},
            }
        }
        if str_equals(v, "black") {
            Base::Black
        } else if str_equals(v, "red") {
            Base::Red
        } else if str_equals(v, "green") {
            Base::Green
        } else if str_equals(v, "yellow") {
            Base::Yellow
        } else if str_equals(v, "blue") {
            Base::Blue
        } else if str_equals(v, "magenta") || str_equals(v, "purple") {
            Base::Magenta
        } else if str_equals(v, "cyan") {
            Base::Cyan
        } else if str_equals(v, "white") {
            Base::White
        } else {
            Base::Unknown(v.to_owned())
        }
    }

    /// The name that was not known, where the color is one.
    pub fn unknown_name(&self) -> (r: Option<&String>)
        ensures
            match r {
                Some(name) => self@ == BaseView::Unknown(name@),
                None => !(self@ is Unknown),
            },
    {
        match self {
            Base::Unknown(name) => Some(name),
            _ => None,
        }
    }
}

} // verus!
