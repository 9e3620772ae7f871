//! Colour keys of the identifier table, such as `255,0,0`.
//!
//! A key is three components separated by commas. A component is a number
//! from 0 to 255 in decimal digits, with an optional `+` before it and
//! optional white space around it.

use vstd::prelude::*;
use vstd::string::*;

verus! {

/// Why a colour key was refused. Both cases carry the key.
#[derive(Debug)]
pub enum KeyError {
    /// The key does not have three components.
    Shape(String),
    /// A component of the key is not a number from 0 to 255.
    Component(String),
}

impl KeyError {
    /// The key that was refused.
    pub open spec fn key(&self) -> Seq<char> {
        match self {
            KeyError::Shape(text) => text@,
            KeyError::Component(text) => text@,
        }
    }

    /// A message that names the key that was refused.
    pub fn message(&self) -> (text: String)
        ensures
            text@ == match self {
                KeyError::Shape(key) => "invalid colour key: "@ + key@,
                KeyError::Component(key) => "invalid component in colour key: "@ + key@,
            },
    {
        match self {
            KeyError::Shape(key) => String::from_str("invalid colour key: ").concat(key.as_str()),
            KeyError::Component(key) => String::from_str(
                "invalid component in colour key: ",
            ).concat(key.as_str()),
        }
    }
}

/// Whether `c` is white space: a character with the Unicode property
/// White_Space.
pub open spec fn is_space(c: char) -> bool {
    let code = c as u32;
    ||| 0x09 <= code <= 0x0D
    ||| code == 0x20
    ||| code == 0x85
    ||| code == 0xA0
    ||| code == 0x1680
    ||| 0x2000 <= code <= 0x200A
    ||| code == 0x2028
    ||| code == 0x2029
    ||| code == 0x202F
    ||| code == 0x205F
    ||| code == 0x3000
}

/// Whether `c` is one of the digits `0` to `9`.
pub open spec fn is_digit(c: char) -> bool {
    0x30 <= c as u32 <= 0x39
}

/// `text` cut at its commas: the pieces between them, in order. A text with
/// `n` commas has `n + 1` pieces, some of which may be empty.
pub open spec fn pieces(text: Seq<char>) -> Seq<Seq<char>>
    decreases text.len(),
{
    if text.len() == 0 {
        seq![Seq::empty()]
    } else {
        let head = pieces(text.drop_last());
        if text.last() == ',' {
            head.push(Seq::empty())
        } else {
            head.drop_last().push(head.last().push(text.last()))
        }
    }
}

/// `text` without the white space at its start.
pub open spec fn trim_start(text: Seq<char>) -> Seq<char>
    decreases text.len(),
{
    if text.len() > 0 && is_space(text.first()) {
        trim_start(text.drop_first())
    } else {
        text
    }
}

/// `text` without the white space at its end.
pub open spec fn trim_end(text: Seq<char>) -> Seq<char>
    decreases text.len(),
{
    if text.len() > 0 && is_space(text.last()) {
        trim_end(text.drop_last())
    } else {
        text
    }
}

/// `text` without the white space at either end.
pub open spec fn trimmed(text: Seq<char>) -> Seq<char> {
    trim_end(trim_start(text))
}

/// The number that the decimal digits `digits` write.
pub open spec fn number(digits: Seq<char>) -> nat
    decreases digits.len(),
{
    if digits.len() == 0 {
        0
    } else {
        number(digits.drop_last()) * 10 + (digits.last() as u32 - 0x30) as nat
    }
}

/// Whether every character of `text` is a digit.
pub open spec fn all_digits(text: Seq<char>) -> bool {
    forall|i: int| 0 <= i < text.len() ==> is_digit(#[trigger] text[i])
}

/// `text` without a `+` at its start.
pub open spec fn unsigned(text: Seq<char>) -> Seq<char> {
    if text.len() > 0 && text.first() == '+' {
        text.drop_first()
    } else {
        text
    }
}

/// The byte that `text` writes: an optional `+`, then at least one digit and
/// nothing else, for a number of at most 255.
pub open spec fn byte_value(text: Seq<char>) -> Option<u8> {
    let digits = unsigned(text);
    if digits.len() > 0 && all_digits(digits) && number(digits) <= 255 {
        Some(number(digits) as u8)
    } else {
        None
    }
}

/// The byte that component `i` of a key writes, white space around it set
/// aside.
pub open spec fn component(text: Seq<char>, i: int) -> Option<u8> {
    byte_value(trimmed(pieces(text)[i]))
}

/// Whether `text` is a colour key: three components, each of which writes a
/// byte.
pub open spec fn valid_key(text: Seq<char>) -> bool {
    &&& pieces(text).len() == 3
    &&& component(text, 0).is_some()
    &&& component(text, 1).is_some()
    &&& component(text, 2).is_some()
}

/// The red, green and blue bytes that the colour key `text` writes.
pub open spec fn key_bytes(text: Seq<char>) -> Seq<u8> {
    seq![
        component(text, 0).unwrap(),
        component(text, 1).unwrap(),
        component(text, 2).unwrap(),
    ]
}

/// Whether `c` is white space.
pub fn space(c: char) -> (yes: bool)
    ensures
        yes == is_space(c),
{
    let code: u32 = c as u32;
    (0x09 <= code && code <= 0x0D) || code == 0x20 || code == 0x85 || code == 0xA0 || code == 0x1680
        || (0x2000 <= code && code <= 0x200A) || code == 0x2028 || code == 0x2029 || code == 0x202F
        || code == 0x205F || code == 0x3000
}

/// The texts of `parts`, in order.
pub open spec fn texts(parts: Seq<Vec<char>>) -> Seq<Seq<char>> {
    Seq::new(parts.len(), |i: int| parts[i]@)
}

/// Cuts `text` at its commas.
pub fn split_at_commas(text: &str) -> (parts: Vec<Vec<char>>)
    ensures
        texts(parts@) == pieces(text@),
{
    let len: usize = text.unicode_len();
    let mut parts: Vec<Vec<char>> = Vec::new();
    let mut current: Vec<char> = Vec::new();
    let mut i: usize = 0;
    while i < len
        invariant
            len == text@.len(),
            0 <= i <= len,
            texts(parts@).push(current@) == pieces(text@.take(i as int)),
        decreases len - i,
    {
        let c = text.get_char(i);
        proof {
            assert(text@.take(i + 1).drop_last() =~= text@.take(i as int));
            let head = pieces(text@.take(i as int));
            assert(head.drop_last() =~= texts(parts@));
            assert(head.last() == current@);
        }
        if c == ',' {
            parts.push(current);
            current = Vec::new();
            proof {
                assert(texts(parts@) =~= pieces(text@.take(i as int)));
            }
        } else {
            current.push(c);
        }
        i += 1;
    }
    proof {
        assert(text@.take(len as int) =~= text@);
    }
    let ghost done = texts(parts@);
    parts.push(current);
    proof {
        assert(texts(parts@) =~= done.push(current@));
    }
    parts
}

/// One more digit makes the number at least ten times as large.
proof fn lemma_number_grows(digits: Seq<char>)
    requires
        digits.len() > 0,
    ensures
        number(digits) >= number(digits.drop_last()) * 10,
{
}

/// A number that has passed 255 stays above it whatever digits follow.
proof fn lemma_number_stays_large(digits: Seq<char>, n: int)
    requires
        0 <= n <= digits.len(),
        number(digits.take(n)) > 255,
    ensures
        number(digits) > 255,
    decreases digits.len() - n,
{
    if n < digits.len() {
        assert(digits.take(n + 1).drop_last() =~= digits.take(n));
        lemma_number_grows(digits.take(n + 1));
        lemma_number_stays_large(digits, n + 1);
    } else {
        assert(digits.take(n) =~= digits);
    }
}

/// Reads one component of a colour key: a number from 0 to 255 with an
/// optional `+` before it and optional white space around it.
pub fn parse_component(part: &Vec<char>) -> (byte: Option<u8>)
    ensures
        byte == byte_value(trimmed(part@)),
{
    let mut from: usize = 0;
    proof {
        assert(part@.skip(0) =~= part@);
    }
    while from < part.len() && space(part[from])
        invariant
            0 <= from <= part@.len(),
            trim_start(part@) == trim_start(part@.skip(from as int)),
        decreases part@.len() - from,
    {
        proof {
            assert(part@.skip(from as int).drop_first() =~= part@.skip(from + 1));
        }
        from += 1;
    }
    let ghost started = part@.skip(from as int);
    assert(trim_start(part@) == started);
    let mut to: usize = part.len();
    while to > from && space(part[to - 1])
        invariant
            from <= to <= part@.len(),
            started == part@.skip(from as int),
            trim_end(started) == trim_end(part@.subrange(from as int, to as int)),
        decreases to,
    {
        proof {
            assert(part@.subrange(from as int, to as int).drop_last() =~= part@.subrange(
                from as int,
                to - 1,
            ));
        }
        to -= 1;
    }
    let ghost text = part@.subrange(from as int, to as int);
    proof {
        if from == 0 && to == part@.len() {
            assert(started =~= part@);
        }
        assert(started.len() == part@.len() - from);
        if to == part@.len() {
            assert(started =~= text);
        }
        assert(trimmed(part@) == text);
    }
    if from < to && part[from] == '+' {
        from += 1;
    }
    let ghost digits = part@.subrange(from as int, to as int);
    proof {
        assert(unsigned(text) =~= digits);
    }
    if from == to {
        return None;
    }
    let mut value: u32 = 0;
    let mut i: usize = from;
    while i < to
        invariant
            from <= i <= to <= part@.len(),
            digits == part@.subrange(from as int, to as int),
            digits == unsigned(trimmed(part@)),
            all_digits(digits.take(i - from)),
            value == number(digits.take(i - from)),
            value <= 255,
        decreases to - i,
    {
        let code: u32 = part[i] as u32;
        proof {
            assert(digits[i - from] == part@[i as int]);
            assert(digits.take(i - from + 1).drop_last() =~= digits.take(i - from));
            assert(digits.take(i - from + 1).last() == part@[i as int]);
        }
        if code < 0x30 || code > 0x39 {
            proof {
                assert(!is_digit(digits[i - from]));
            }
            return None;
        }
        value = value * 10 + (code - 0x30);
        proof {
            assert(value == number(digits.take(i - from + 1)));
            assert forall|k: int| 0 <= k < i - from + 1 implies is_digit(
                #[trigger] digits.take(i - from + 1)[k],
            ) by {
                if k < i - from {
                    assert(digits.take(i - from)[k] == digits[k]);
                }
            }
        }
        if value > 255 {
            proof {
                lemma_number_stays_large(digits, i - from + 1);
            }
            return None;
        }
        i += 1;
    }
    proof {
        assert(digits.take(to - from) =~= digits);
    }
    Some(value as u8)
}

/// Reads a colour key such as `255,0,0` into its red, green and blue bytes.
/// A key that does not have three components is refused for its shape; a key
/// of three components of which one is not a number from 0 to 255 is refused
/// for a component. The error carries the key.
pub fn parse_key_to_color(s: &str) -> (color: Result<[u8; 3], KeyError>)
    ensures
        match color {
            Ok(rgb) => valid_key(s@) && rgb@ == key_bytes(s@),
            Err(KeyError::Shape(key)) => pieces(s@).len() != 3 && key@ == s@,
            Err(KeyError::Component(key)) => pieces(s@).len() == 3 && !valid_key(s@) && key@ == s@,
        },
{
    let parts = split_at_commas(s);
    if parts.len() != 3 {
        return Err(KeyError::Shape(String::from_str(s)));
    }
    proof {
        assert(texts(parts@)[0] == parts@[0]@);
        assert(texts(parts@)[1] == parts@[1]@);
        assert(texts(parts@)[2] == parts@[2]@);
    }
    let mut arr: [u8; 3] = [0u8; 3];
    let mut i: usize = 0;
    while i < 3
        invariant
            0 <= i <= 3,
            parts@.len() == 3,
            texts(parts@) == pieces(s@),
            forall|k: int| 0 <= k < i ==> component(s@, k) == Some(#[trigger] arr@[k]),
        decreases 3 - i,
    {
        proof {
            assert(texts(parts@)[i as int] == parts@[i as int]@);
        }
        match parse_component(&parts[i]) {
            Some(byte) => {
                arr[i] = byte;
            },
            None => {
                return Err(KeyError::Component(String::from_str(s)));
            },
        }
        i += 1;
    }
    proof {
        assert(arr@ =~= key_bytes(s@));
    }
    Ok(arr)
}

} // verus!
