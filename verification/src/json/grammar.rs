//! The grammar, as functions from a text and a position to what stands there.
//!
//! ```text
//! Value  := String | Array | Object | "true" | "false" | "null" | Number
//! String := '"' (plain | '\' any)* '"'
//! Number := '-'? digit+ ('.' digit+)? (('e'|'E') ('+'|'-')? digit+)?
//! Array  := '[' (Value (',' Value)*)? ']'
//! Object := '{' (String ':' Value (',' String ':' Value)*)? '}'
//! ```
//!
//! Whitespace may stand between any two tokens. The first character that is
//! left decides which production applies, so nothing is ever read twice.

use vstd::prelude::*;
use crate::json::number::{Decimal, EXPONENT_LIMIT};
use crate::json::value::{with_member, JsonView};
use crate::text::{digit_value, is_digit, is_whitespace, numeral};

verus! {

/// The kinds of failure of a parse.
#[derive(Debug, Clone, Copy, PartialEq, Eq, Structural)]
pub enum ErrorKind {
    /// The text holds no value: it is empty or all whitespace.
    EmptyInput,
    /// A malformed number, a string without its closing quote, or a word
    /// that starts like `true`, `false` or `null` and is none of them.
    LexicalError,
    /// A value, colon, comma, quote or closing bracket is missing where the
    /// structure asks for one.
    SyntaxError,
    /// Something other than whitespace follows the value.
    TrailingDataError,
}

/// A failure of the grammar at a position, counted in characters.
pub ghost struct Fault {
    pub kind: ErrorKind,
    pub position: int,
}

/// What the grammar finds at a position: a result and the position after
/// it, or a fault.
pub type Found<T> = Result<(T, int), Fault>;

/// A lexical fault at `position`.
pub open spec fn lexical(position: int) -> Fault {
    Fault { kind: ErrorKind::LexicalError, position }
}

/// A syntax fault at `position`.
pub open spec fn syntax(position: int) -> Fault {
    Fault { kind: ErrorKind::SyntaxError, position }
}

/// The first position at or after `p` that holds no whitespace.
pub open spec fn skip_whitespace(s: Seq<char>, p: int) -> int
    decreases s.len() - p,
{
    if 0 <= p < s.len() && is_whitespace(s[p]) {
        skip_whitespace(s, p + 1)
    } else {
        p
    }
}

/// Whether the character at `p` is `c`.
pub open spec fn is_at(s: Seq<char>, p: int, c: char) -> bool {
    0 <= p < s.len() && s[p] == c
}

/// Whether `word` stands at `p`.
pub open spec fn has_word(s: Seq<char>, p: int, word: Seq<char>) -> bool {
    &&& 0 <= p
    &&& p + word.len() <= s.len()
    &&& forall|i: int| 0 <= i < word.len() ==> s[p + i] == #[trigger] word[i]
}

/// What an escape stands for: `\n`, `\t` and `\r` are the control
/// characters, every other character stands for itself.
pub open spec fn unescape(c: char) -> char {
    if c == 'n' {
        '\n'
    } else if c == 't' {
        '\t'
    } else if c == 'r' {
        '\r'
    } else {
        c
    }
}

/// The rest of a string from `p` on, after the characters `read` of it: up
/// to the closing quote.
pub open spec fn string_body(s: Seq<char>, p: int, read: Seq<char>) -> Found<Seq<char>>
    decreases s.len() - p,
{
    if p < 0 || p >= s.len() {
        Err(lexical(s.len() as int))
    } else if s[p] == '"' {
        Ok((read, p + 1))
    } else if s[p] == '\\' {
        if p + 1 >= s.len() {
            Err(lexical(s.len() as int))
        } else {
            string_body(s, p + 2, read.push(unescape(s[p + 1])))
        }
    } else {
        string_body(s, p + 1, read.push(s[p]))
    }
}

/// The string that starts with its opening quote at `p`.
pub open spec fn string_at(s: Seq<char>, p: int) -> Found<Seq<char>> {
    if is_at(s, p, '"') {
        string_body(s, p + 1, Seq::empty())
    } else {
        Err(syntax(p))
    }
}

/// The first position at or after `p` that holds no digit.
pub open spec fn digits_end(s: Seq<char>, p: int) -> int
    decreases s.len() - p,
{
    if 0 <= p < s.len() && is_digit(s[p]) {
        digits_end(s, p + 1)
    } else {
        p
    }
}

/// The values of the digits from `from` up to `to`.
pub open spec fn digit_values(s: Seq<char>, from: int, to: int) -> Seq<u8> {
    Seq::new(
        if to >= from {
            (to - from) as nat
        } else {
            0
        },
        |i: int| digit_value(s[from + i]) as u8,
    )
}

/// The parts of a number literal that starts at some position: where each
/// part begins and ends.
pub ghost struct NumberShape {
    pub negative: bool,
    pub int_start: int,
    pub int_end: int,
    pub has_fraction: bool,
    pub fraction_start: int,
    pub fraction_end: int,
    pub has_exponent: bool,
    pub exponent_negative: bool,
    pub exponent_start: int,
    pub exponent_end: int,
}

/// The parts of the number literal at `p`, each read as far as it goes.
pub open spec fn number_shape(s: Seq<char>, p: int) -> NumberShape {
    let negative = is_at(s, p, '-');
    let int_start = if negative {
        p + 1
    } else {
        p
    };
    let int_end = digits_end(s, int_start);
    let has_fraction = is_at(s, int_end, '.');
    let fraction_start = if has_fraction {
        int_end + 1
    } else {
        int_end
    };
    let fraction_end = if has_fraction {
        digits_end(s, fraction_start)
    } else {
        int_end
    };
    let has_exponent = is_at(s, fraction_end, 'e') || is_at(s, fraction_end, 'E');
    let has_sign = has_exponent && (is_at(s, fraction_end + 1, '+') || is_at(
        s,
        fraction_end + 1,
        '-',
    ));
    let exponent_start = if has_sign {
        fraction_end + 2
    } else if has_exponent {
        fraction_end + 1
    } else {
        fraction_end
    };
    NumberShape {
        negative,
        int_start,
        int_end,
        has_fraction,
        fraction_start,
        fraction_end,
        has_exponent,
        exponent_negative: has_exponent && is_at(s, fraction_end + 1, '-'),
        exponent_start,
        exponent_end: if has_exponent {
            digits_end(s, exponent_start)
        } else {
            fraction_end
        },
    }
}

/// The power of ten that the digits of a literal are multiplied by: the
/// written exponent less the number of digits after the point.
pub open spec fn shape_shift(s: Seq<char>, shape: NumberShape) -> int {
    let written = numeral(s, shape.exponent_start, shape.exponent_end) as int;
    (if shape.exponent_negative {
        -written
    } else {
        written
    }) - (shape.fraction_end - shape.fraction_start)
}

/// The number that a literal of the given shape writes, before the limit on
/// its power of ten is looked at.
pub open spec fn number_value(s: Seq<char>, shape: NumberShape) -> Decimal {
    Decimal::normalized(
        shape.negative,
        digit_values(s, shape.int_start, shape.int_end) + digit_values(
            s,
            shape.fraction_start,
            shape.fraction_end,
        ),
        shape_shift(s, shape),
    )
}

/// The number whose literal starts at `p`. The integer part, the fraction
/// after a point and the exponent after an `e` need a digit each, and the
/// power of ten of the number must be within the limit.
pub open spec fn number_at(s: Seq<char>, p: int) -> Found<Decimal> {
    let shape = number_shape(s, p);
    if shape.int_end == shape.int_start {
        Err(lexical(shape.int_start))
    } else if shape.has_fraction && shape.fraction_end == shape.fraction_start {
        Err(lexical(shape.fraction_start))
    } else if shape.has_exponent && shape.exponent_end == shape.exponent_start {
        Err(lexical(shape.exponent_start))
    } else {
        let value = number_value(s, shape);
        if -EXPONENT_LIMIT <= value.exponent <= EXPONENT_LIMIT {
            Ok((value, shape.exponent_end))
        } else {
            Err(lexical(p))
        }
    }
}

/// `skip_whitespace` moves forward, stays within the text and stops at what
/// is no whitespace.
pub proof fn lemma_skip_whitespace(s: Seq<char>, p: int)
    ensures
        p <= skip_whitespace(s, p),
        p <= s.len() ==> skip_whitespace(s, p) <= s.len(),
        forall|i: int| p <= i < skip_whitespace(s, p) ==> 0 <= i < s.len() && is_whitespace(s[i]),
        0 <= skip_whitespace(s, p) < s.len() ==> !is_whitespace(s[skip_whitespace(s, p)]),
    decreases s.len() - p,
{
    if 0 <= p < s.len() && is_whitespace(s[p]) {
        lemma_skip_whitespace(s, p + 1);
    }
}

/// `digits_end` moves forward over digits, stays within the text and stops
/// at what is no digit.
pub proof fn lemma_digits_end(s: Seq<char>, p: int)
    ensures
        p <= digits_end(s, p),
        p <= s.len() ==> digits_end(s, p) <= s.len(),
        forall|i: int| p <= i < digits_end(s, p) ==> 0 <= i < s.len() && is_digit(s[i]),
        0 <= digits_end(s, p) < s.len() ==> !is_digit(s[digits_end(s, p)]),
    decreases s.len() - p,
{
    if 0 <= p < s.len() && is_digit(s[p]) {
        lemma_digits_end(s, p + 1);
    }
}

/// A string ends after where it starts, within the text.
pub proof fn lemma_string_body_advances(s: Seq<char>, p: int, read: Seq<char>)
    requires
        0 <= p,
    ensures
        match string_body(s, p, read) {
            Ok((_, end)) => p < end <= s.len(),
            Err(fault) => fault == lexical(s.len() as int),
        },
    decreases s.len() - p,
{
    if p < s.len() && s[p] != '"' {
        if s[p] == '\\' {
            if p + 1 < s.len() {
                lemma_string_body_advances(s, p + 2, read.push(unescape(s[p + 1])));
            }
        } else {
            lemma_string_body_advances(s, p + 1, read.push(s[p]));
        }
    }
}

/// The value that starts at `p`, which holds no whitespace.
pub open spec fn value_at(s: Seq<char>, p: int) -> Found<JsonView>
    decreases s.len() - p, 2int,
{
    if p < 0 || p >= s.len() {
        Err(syntax(p))
    } else if s[p] == '"' {
        match string_at(s, p) {
            Ok((text, end)) => Ok((JsonView::String(text), end)),
            Err(fault) => Err(fault),
        }
    } else if s[p] == '[' {
        match array_at(s, p) {
            Ok((items, end)) => Ok((JsonView::Array(items), end)),
            Err(fault) => Err(fault),
        }
    } else if s[p] == '{' {
        match object_at(s, p) {
            Ok((members, end)) => Ok((JsonView::Object(members), end)),
            Err(fault) => Err(fault),
        }
    } else if s[p] == 't' {
        if has_word(s, p, seq!['t', 'r', 'u', 'e']) {
            Ok((JsonView::Bool(true), p + 4))
        } else {
            Err(lexical(p))
        }
    } else if s[p] == 'f' {
        if has_word(s, p, seq!['f', 'a', 'l', 's', 'e']) {
            Ok((JsonView::Bool(false), p + 5))
        } else {
            Err(lexical(p))
        }
    } else if s[p] == 'n' {
        if has_word(s, p, seq!['n', 'u', 'l', 'l']) {
            Ok((JsonView::Null, p + 4))
        } else {
            Err(lexical(p))
        }
    } else if is_digit(s[p]) || s[p] == '-' {
        match number_at(s, p) {
            Ok((number, end)) => Ok((JsonView::Number(number), end)),
            Err(fault) => Err(fault),
        }
    } else {
        Err(syntax(p))
    }
}

/// The array that starts with its bracket at `p`.
pub open spec fn array_at(s: Seq<char>, p: int) -> Found<Seq<JsonView>>
    decreases s.len() - p, 1int,
{
    if !is_at(s, p, '[') {
        Err(syntax(p))
    } else {
        let first = skip_whitespace(s, p + 1);
        if is_at(s, first, ']') {
            Ok((Seq::empty(), first + 1))
        } else {
            proof {
                lemma_skip_whitespace(s, p + 1);
            }
            items_at(s, first, Seq::empty())
        }
    }
}

/// The rest of an array from the item at `p` on, after the items `read`.
/// An item takes at least one character (`round_trip::lemma_value_wf`), so the
/// test on `end` never fails: it lets the recursion be seen to end.
pub open spec fn items_at(s: Seq<char>, p: int, read: Seq<JsonView>) -> Found<Seq<JsonView>>
    decreases s.len() - p, 3int,
{
    match value_at(s, p) {
        Err(fault) => Err(fault),
        Ok((item, end)) => {
            let next = skip_whitespace(s, end);
            if end <= p {
                Err(syntax(p))
            } else if is_at(s, next, ',') {
                proof {
                    lemma_skip_whitespace(s, end);
                    lemma_skip_whitespace(s, next + 1);
                }
                items_at(s, skip_whitespace(s, next + 1), read.push(item))
            } else if is_at(s, next, ']') {
                Ok((read.push(item), next + 1))
            } else {
                Err(syntax(next))
            }
        },
    }
}

/// The object that starts with its brace at `p`.
pub open spec fn object_at(s: Seq<char>, p: int) -> Found<Seq<(Seq<char>, JsonView)>>
    decreases s.len() - p, 1int,
{
    if !is_at(s, p, '{') {
        Err(syntax(p))
    } else {
        let first = skip_whitespace(s, p + 1);
        if is_at(s, first, '}') {
            Ok((Seq::empty(), first + 1))
        } else {
            proof {
                lemma_skip_whitespace(s, p + 1);
            }
            members_at(s, first, Seq::empty())
        }
    }
}

/// The rest of an object from the key at `p` on, after the members `read`.
/// A key that was read before is set anew: the last write wins.
pub open spec fn members_at(s: Seq<char>, p: int, read: Seq<(Seq<char>, JsonView)>) -> Found<
    Seq<(Seq<char>, JsonView)>,
>
    decreases s.len() - p, 3int,
{
    match string_at(s, p) {
        Err(fault) => Err(fault),
        Ok((key, key_end)) => {
            let colon = skip_whitespace(s, key_end);
            let start = skip_whitespace(s, colon + 1);
            if !is_at(s, colon, ':') {
                Err(syntax(colon))
            } else {
                proof {
                    lemma_string_body_advances(s, p + 1, Seq::empty());
                    lemma_skip_whitespace(s, key_end);
                    lemma_skip_whitespace(s, colon + 1);
                }
                match value_at(s, start) {
                    Err(fault) => Err(fault),
                    Ok((value, end)) => {
                        let next = skip_whitespace(s, end);
                        if end <= start {
                            Err(syntax(start))
                        } else if is_at(s, next, ',') {
                            proof {
                                lemma_skip_whitespace(s, end);
                                lemma_skip_whitespace(s, next + 1);
                            }
                            members_at(
                                s,
                                skip_whitespace(s, next + 1),
                                with_member(read, key, value),
                            )
                        } else if is_at(s, next, '}') {
                            Ok((with_member(read, key, value), next + 1))
                        } else {
                            Err(syntax(next))
                        }
                    },
                }
            }
        },
    }
}

/// The value that the whole text writes: one value, with nothing but
/// whitespace before and after it.
pub open spec fn document(s: Seq<char>) -> Result<JsonView, Fault> {
    document_from(s, 0)
}

/// The value that the text from `p` on writes: one value, with nothing but
/// whitespace before and after it.
pub open spec fn document_from(s: Seq<char>, p: int) -> Result<JsonView, Fault> {
    let start = skip_whitespace(s, p);
    if start >= s.len() {
        Err(Fault { kind: ErrorKind::EmptyInput, position: start })
    } else {
        match value_at(s, start) {
            Err(fault) => Err(fault),
            Ok((value, end)) => {
                let rest = skip_whitespace(s, end);
                if rest < s.len() {
                    Err(Fault { kind: ErrorKind::TrailingDataError, position: rest })
                } else {
                    Ok(value)
                }
            },
        }
    }
}

} // verus!
