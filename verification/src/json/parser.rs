//! The parser: predictive recursive descent over a cursor.

use vstd::prelude::*;
use crate::json::grammar::{
    array_at, digit_values, digits_end, document, has_word, is_at, items_at, lemma_digits_end,
    lemma_skip_whitespace, lemma_string_body_advances, members_at, number_at, number_shape,
    number_value, object_at, skip_whitespace, string_at, string_body, shape_shift, unescape,
    value_at, document_from, ErrorKind, Fault,
};
use crate::json::number::{Decimal, JsonNumber, lemma_normalized_shape, EXPONENT_LIMIT};
use crate::json::value::{JsonObject, JsonValue, JsonView};
use crate::text::{
    char_digit_value, char_is_digit, char_is_whitespace, chars_of, is_whitespace, numeral, text_of,
};

verus! {

/// Why and where a parse failed. The position counts characters.
#[derive(Debug, Clone, Copy, PartialEq, Eq, Structural)]
pub struct ParseError {
    pub kind: ErrorKind,
    pub position: usize,
}

impl View for ParseError {
    type V = Fault;

    open spec fn view(&self) -> Fault {
        Fault { kind: self.kind, position: self.position as int }
    }
}

/// The views of `items`, in order.
pub open spec fn item_views(items: Seq<JsonValue>) -> Seq<JsonView> {
    Seq::new(items.len(), |i: int| items[i]@)
}

/// The view of an array is the sequence of the views of its items.
pub proof fn lemma_array_view(items: Vec<JsonValue>)
    ensures
        JsonValue::Array(items)@ == JsonView::Array(item_views(items@)),
{
    assert(JsonValue::Array(items)@->Array_0 =~= item_views(items@));
}

/// What an escape stands for.
pub fn unescape_char(c: char) -> (r: char)
    ensures
        r == unescape(c),
{
    if c == 'n' {
        '\n'
    } else if c == 't' {
        '\t'
    } else if c == 'r' {
        '\r'
    } else {
        c
    }
}

/// From this value of an exponent on, a number other than zero is beyond
/// the limit whatever its digits are.
pub const EXPONENT_CAP: u128 = 0x10_0000_0000_0000_0000_0000_0000;

/// A cursor over the characters of a text.
pub struct JsonParser {
    input: Vec<char>,
    position: usize,
}

impl JsonParser {
    /// The text that is read.
    pub closed spec fn text(&self) -> Seq<char> {
        self.input@
    }

    /// The position of the cursor, in characters from the start.
    pub closed spec fn place(&self) -> int {
        self.position as int
    }

    /// The cursor stands within the text or at its end.
    pub open spec fn wf(&self) -> bool {
        0 <= self.place() <= self.text().len()
    }

    /// A cursor at the start of `input`.
    pub fn new(input: &str) -> (parser: JsonParser)
        ensures
            parser.text() == input@,
            parser.place() == 0,
            parser.wf(),
    {
        JsonParser { input: chars_of(input), position: 0 }
    }

    /// The position of the cursor, in characters from the start.
    pub fn position(&self) -> (p: usize)
        ensures
            p == self.place(),
    {
        self.position
    }

    /// The character under the cursor; nothing at the end of the text.
    pub fn current_char(&self) -> (c: Option<char>)
        ensures
            c == if 0 <= self.place() < self.text().len() {
                Some(self.text()[self.place()])
            } else {
                None
            },
    {
        if self.position < self.input.len() {
            Some(self.input[self.position])
        } else {
            None
        }
    }

    /// Moves the cursor one character forward; at the end of the text it
    /// stays.
    pub fn advance(&mut self)
        ensures
            final(self).text() == old(self).text(),
            final(self).place() == if old(self).place() < old(self).text().len() {
                old(self).place() + 1
            } else {
                old(self).place()
            },
            old(self).wf() ==> final(self).wf(),
    {
        if self.position < self.input.len() {
            self.position += 1;
        }
    }

    /// Moves the cursor over the whitespace that it stands on.
    pub fn skip_whitespace(&mut self)
        ensures
            final(self).text() == old(self).text(),
            final(self).place() == skip_whitespace(old(self).text(), old(self).place()),
            final(self).place() == skip_whitespace(old(self).text(), final(self).place()),
            old(self).place() <= final(self).place(),
            old(self).wf() ==> final(self).wf(),
    {
        proof {
            lemma_skip_whitespace(self.text(), self.place());
            lemma_skip_idempotent(self.text(), self.place());
        }
        while self.position < self.input.len() && char_is_whitespace(self.input[self.position])
            invariant
                self.input == old(self).input,
                old(self).position <= self.position,
                skip_whitespace(old(self).text(), old(self).place()) == skip_whitespace(
                    self.text(),
                    self.place(),
                ),
            decreases self.input.len() - self.position,
        {
            self.position += 1;
        }
    }

    /// Whether the cursor stands on `c`.
    fn at(&self, c: char) -> (b: bool)
        ensures
            b == is_at(self.text(), self.place(), c),
    {
        self.position < self.input.len() && self.input[self.position] == c
    }

    /// Moves the cursor over `c` if it stands on it, and says whether it
    /// did.
    fn eat(&mut self, c: char) -> (b: bool)
        ensures
            b == is_at(old(self).text(), old(self).place(), c),
            final(self).text() == old(self).text(),
            final(self).place() == if b {
                old(self).place() + 1
            } else {
                old(self).place()
            },
            old(self).wf() ==> final(self).wf(),
    {
        if self.position < self.input.len() && self.input[self.position] == c {
            self.position += 1;
            true
        } else {
            false
        }
    }

    /// Moves the cursor over the `count` characters that it stands on.
    fn skip_chars(&mut self, count: usize)
        requires
            old(self).place() + count <= old(self).text().len(),
        ensures
            final(self).text() == old(self).text(),
            final(self).place() == old(self).place() + count,
    {
        assert(self.text().len() == self.input.len());
        self.position += count;
    }

    /// A fault of the given kind at the cursor.
    fn fail(&self, kind: ErrorKind) -> (e: ParseError)
        ensures
            e@ == (Fault { kind, position: self.place() }),
    {
        ParseError { kind, position: self.position }
    }

    /// Reads the string that starts at the cursor, as characters.
    fn read_string(&mut self) -> (r: Result<Vec<char>, ParseError>)
        ensures
            final(self).text() == old(self).text(),
            old(self).place() <= final(self).place(),
            old(self).wf() ==> final(self).wf(),
            match r {
                Ok(read) => string_at(old(self).text(), old(self).place()) == Ok::<
                    (Seq<char>, int),
                    Fault,
                >((read@, final(self).place())),
                Err(e) => string_at(old(self).text(), old(self).place()) == Err::<
                    (Seq<char>, int),
                    Fault,
                >(e@),
            },
    {
        if !self.at('"') {
            return Err(self.fail(ErrorKind::SyntaxError));
        }
        let len = self.input.len();
        assert(self.place() < len);
        self.position += 1;
        let mut read: Vec<char> = Vec::new();
        loop
            invariant
                self.input == old(self).input,
                len == self.input.len(),
                old(self).position < self.position <= len,
                string_at(old(self).text(), old(self).place()) == string_body(
                    self.text(),
                    self.place(),
                    read@,
                ),
            decreases len - self.position,
        {
            if self.position >= len {
                return Err(ParseError { kind: ErrorKind::LexicalError, position: len });
            }
            let ch = self.input[self.position];
            if ch == '"' {
                self.position += 1;
                return Ok(read);
            } else if ch == '\\' {
                if self.position + 1 >= len {
                    return Err(ParseError { kind: ErrorKind::LexicalError, position: len });
                }
                read.push(unescape_char(self.input[self.position + 1]));
                self.position += 2;
            } else {
                read.push(ch);
                self.position += 1;
            }
        }
    }

    /// Reads the string that starts with its opening quote at the cursor,
    /// and leaves the cursor after the closing quote. An escape stands for
    /// a control character (`\n`, `\t`, `\r`) or for the escaped character
    /// itself.
    pub fn parse_string(&mut self) -> (r: Result<String, ParseError>)
        ensures
            final(self).text() == old(self).text(),
            old(self).place() <= final(self).place(),
            old(self).wf() ==> final(self).wf(),
            match r {
                Ok(read) => string_at(old(self).text(), old(self).place()) == Ok::<
                    (Seq<char>, int),
                    Fault,
                >((read@, final(self).place())),
                Err(e) => string_at(old(self).text(), old(self).place()) == Err::<
                    (Seq<char>, int),
                    Fault,
                >(e@),
            },
    {
        match self.read_string() {
            Ok(read) => Ok(text_of(&read)),
            Err(e) => Err(e),
        }
    }

    /// Moves the cursor over the digits that it stands on and appends their
    /// values to `digits`.
    fn read_digits(&mut self, digits: &mut Vec<u8>)
        requires
            old(self).wf(),
            forall|i: int| 0 <= i < old(digits).len() ==> #[trigger] old(digits)[i] <= 9,
        ensures
            final(self).text() == old(self).text(),
            final(self).wf(),
            final(self).place() == digits_end(old(self).text(), old(self).place()),
            old(self).place() <= final(self).place(),
            final(digits)@ == old(digits)@ + digit_values(
                old(self).text(),
                old(self).place(),
                final(self).place(),
            ),
            forall|i: int| 0 <= i < final(digits).len() ==> #[trigger] final(digits)[i] <= 9,
    {
        proof {
            assert(digits@ =~= old(digits)@ + digit_values(
                self.text(),
                self.place(),
                self.place(),
            ));
        }
        while self.position < self.input.len() && char_is_digit(self.input[self.position])
            invariant
                self.input == old(self).input,
                old(self).position <= self.position <= self.input.len(),
                digits_end(old(self).text(), old(self).place()) == digits_end(
                    self.text(),
                    self.place(),
                ),
                digits@ == old(digits)@ + digit_values(
                    self.text(),
                    old(self).place(),
                    self.place(),
                ),
                forall|i: int| 0 <= i < digits.len() ==> #[trigger] digits[i] <= 9,
            decreases self.input.len() - self.position,
        {
            digits.push(char_digit_value(self.input[self.position]));
            self.position += 1;
            proof {
                assert(digits@ =~= old(digits)@ + digit_values(
                    self.text(),
                    old(self).place(),
                    self.place(),
                ));
            }
        }
    }

    /// Moves the cursor over the digits that it stands on and returns the
    /// number that they write, as far as it is below the cap.
    fn read_exponent(&mut self) -> (written: u128)
        requires
            old(self).wf(),
        ensures
            final(self).text() == old(self).text(),
            final(self).wf(),
            final(self).place() == digits_end(old(self).text(), old(self).place()),
            old(self).place() <= final(self).place(),
            ({
                let n = numeral(old(self).text(), old(self).place(), final(self).place());
                if n < EXPONENT_CAP {
                    written == n
                } else {
                    written >= EXPONENT_CAP
                }
            }),
    {
        let mut written: u128 = 0;
        while self.position < self.input.len() && char_is_digit(self.input[self.position])
            invariant
                self.input == old(self).input,
                old(self).position <= self.position <= self.input.len(),
                digits_end(old(self).text(), old(self).place()) == digits_end(
                    self.text(),
                    self.place(),
                ),
                written <= 10 * EXPONENT_CAP + 9,
                ({
                    let n = numeral(self.text(), old(self).place(), self.place());
                    if n < EXPONENT_CAP {
                        written == n
                    } else {
                        written >= EXPONENT_CAP
                    }
                }),
            decreases self.input.len() - self.position,
        {
            let d = char_digit_value(self.input[self.position]);
            if written < EXPONENT_CAP {
                written = written * 10 + d as u128;
            }
            self.position += 1;
        }
        written
    }

    /// Reads the number whose literal starts at the cursor: an optional
    /// minus, digits, an optional point with digits, an optional exponent.
    pub fn parse_number(&mut self) -> (r: Result<JsonNumber, ParseError>)
        requires
            old(self).wf(),
        ensures
            final(self).text() == old(self).text(),
            final(self).wf(),
            old(self).place() <= final(self).place(),
            match r {
                Ok(number) => number.wf() && old(self).place() < final(self).place() && number_at(
                    old(self).text(),
                    old(self).place(),
                ) == Ok::<(Decimal, int), Fault>((number@, final(self).place())),
                Err(e) => number_at(old(self).text(), old(self).place()) == Err::<
                    (Decimal, int),
                    Fault,
                >(e@),
            },
    {
        let ghost s = self.text();
        let ghost shape = number_shape(s, self.place());
        let start = self.position;
        let negative = self.eat('-');
        let mut digits: Vec<u8> = Vec::new();
        let int_start = self.position;
        self.read_digits(&mut digits);
        if self.position == int_start {
            return Err(self.fail(ErrorKind::LexicalError));
        }
        let ghost int_digits = digits@;
        let mut fraction_len: usize = 0;
        if self.eat('.') {
            let fraction_start = self.position;
            self.read_digits(&mut digits);
            if self.position == fraction_start {
                return Err(self.fail(ErrorKind::LexicalError));
            }
            fraction_len = self.position - fraction_start;
        }
        proof {
            assert(digits@ =~= digit_values(s, shape.int_start, shape.int_end) + digit_values(
                s,
                shape.fraction_start,
                shape.fraction_end,
            ));
        }
        let mut power: i128 = 0;
        if self.eat('e') || self.eat('E') {
            let mut exponent_negative = false;
            if self.eat('+') {
            } else if self.eat('-') {
                exponent_negative = true;
            }
            let exponent_start = self.position;
            let written = self.read_exponent();
            if self.position == exponent_start {
                return Err(self.fail(ErrorKind::LexicalError));
            }
            let capped: i128 = if written >= EXPONENT_CAP {
                EXPONENT_CAP as i128
            } else {
                written as i128
            };
            power = if exponent_negative {
                -capped
            } else {
                capped
            };
        }
        let shift: i128 = power - fraction_len as i128;
        proof {
            assert(number_value(s, shape) == Decimal::normalized(
                negative,
                digits@,
                shape_shift(s, shape),
            ));
            lemma_capped_shift(negative, digits@, shape_shift(s, shape), shift as int);
        }
        match JsonNumber::from_digits(negative, &digits, shift) {
            Some(number) => Ok(number),
            None => Err(ParseError { kind: ErrorKind::LexicalError, position: start }),
        }
    }

    /// Reads the array that starts with its bracket at the cursor.
    pub fn parse_array(&mut self) -> (r: Result<Vec<JsonValue>, ParseError>)
        requires
            old(self).wf(),
        ensures
            final(self).text() == old(self).text(),
            final(self).wf(),
            old(self).place() <= final(self).place(),
            match r {
                Ok(items) => {
                    &&& array_at(old(self).text(), old(self).place()) == Ok::<
                        (Seq<JsonView>, int),
                        Fault,
                    >((item_views(items@), final(self).place()))
                    &&& forall|i: int| 0 <= i < items.len() ==> (#[trigger] items[i]).wf()
                    &&& old(self).place() < final(self).place()
                },
                Err(e) => array_at(old(self).text(), old(self).place()) == Err::<
                    (Seq<JsonView>, int),
                    Fault,
                >(e@),
            },
        decreases old(self).text().len() - old(self).place(), 1int,
    {
        if !self.eat('[') {
            return Err(self.fail(ErrorKind::SyntaxError));
        }
        self.skip_whitespace();
        let mut array: Vec<JsonValue> = Vec::new();
        if self.eat(']') {
            proof {
                assert(item_views(array@) =~= Seq::<JsonView>::empty());
            }
            return Ok(array);
        }
        proof {
            assert(item_views(array@) =~= Seq::<JsonView>::empty());
        }
        loop
            invariant
                self.text() == old(self).text(),
                old(self).place() < self.place() <= self.text().len(),
                self.place() == skip_whitespace(self.text(), self.place()),
                array_at(old(self).text(), old(self).place()) == items_at(
                    self.text(),
                    self.place(),
                    item_views(array@),
                ),
                forall|i: int| 0 <= i < array.len() ==> (#[trigger] array[i]).wf(),
            decreases self.text().len() - self.place(),
        {
            let ghost before = self.place();
            let value = match self.parse_value() {
                Ok(value) => value,
                Err(e) => {
                    return Err(e);
                },
            };
            proof {
                assert(item_views(array@.push(value)) =~= item_views(array@).push(value@));
            }
            array.push(value);
            self.skip_whitespace();
            if self.eat(',') {
                self.skip_whitespace();
            } else if self.eat(']') {
                return Ok(array);
            } else {
                return Err(self.fail(ErrorKind::SyntaxError));
            }
        }
    }

    /// Reads the object that starts with its brace at the cursor. Of two
    /// members with one key the later one stays.
    pub fn parse_object(&mut self) -> (r: Result<JsonObject, ParseError>)
        requires
            old(self).wf(),
        ensures
            final(self).text() == old(self).text(),
            final(self).wf(),
            old(self).place() <= final(self).place(),
            match r {
                Ok(object) => {
                    &&& object_at(old(self).text(), old(self).place()) == Ok::<
                        (Seq<(Seq<char>, JsonView)>, int),
                        Fault,
                    >((object@, final(self).place()))
                    &&& object.wf()
                    &&& old(self).place() < final(self).place()
                },
                Err(e) => object_at(old(self).text(), old(self).place()) == Err::<
                    (Seq<(Seq<char>, JsonView)>, int),
                    Fault,
                >(e@),
            },
        decreases old(self).text().len() - old(self).place(), 1int,
    {
        if !self.eat('{') {
            return Err(self.fail(ErrorKind::SyntaxError));
        }
        self.skip_whitespace();
        let mut object = JsonObject::new();
        if self.eat('}') {
            return Ok(object);
        }
        loop
            invariant
                self.text() == old(self).text(),
                old(self).place() < self.place() <= self.text().len(),
                object_at(old(self).text(), old(self).place()) == members_at(
                    self.text(),
                    self.place(),
                    object@,
                ),
                object.wf(),
            decreases self.text().len() - self.place(),
        {
            let ghost key_start = self.place();
            let key = match self.read_string() {
                Ok(key) => key,
                Err(e) => {
                    return Err(e);
                },
            };
            proof {
                lemma_string_body_advances(self.text(), key_start + 1, Seq::empty());
            }
            self.skip_whitespace();
            if !self.eat(':') {
                return Err(self.fail(ErrorKind::SyntaxError));
            }
            let value = match self.parse_value() {
                Ok(value) => value,
                Err(e) => {
                    return Err(e);
                },
            };
            object.insert_chars(key, value);
            self.skip_whitespace();
            if self.eat(',') {
                self.skip_whitespace();
            } else if self.eat('}') {
                return Ok(object);
            } else {
                return Err(self.fail(ErrorKind::SyntaxError));
            }
        }
    }

    /// Whether `word` stands at the cursor.
    fn at_word(&self, word: &Vec<char>) -> (b: bool)
        requires
            self.wf(),
        ensures
            b == has_word(self.text(), self.place(), word@),
    {
        if self.input.len() - self.position < word.len() {
            return false;
        }
        let mut i: usize = 0;
        while i < word.len()
            invariant
                i <= word.len(),
                self.position + word.len() <= self.input.len(),
                forall|j: int| 0 <= j < i ==> self.text()[self.place() + j] == #[trigger] word[j],
            decreases word.len() - i,
        {
            if self.input[self.position + i] != word[i] {
                return false;
            }
            i += 1;
        }
        true
    }

    /// Skips whitespace and reads the value that follows. The first
    /// character decides what is read: a quote a string, a bracket an
    /// array, a brace an object, `t`, `f` and `n` the three words, a digit
    /// or a minus a number.
    pub fn parse_value(&mut self) -> (r: Result<JsonValue, ParseError>)
        requires
            old(self).wf(),
        ensures
            final(self).text() == old(self).text(),
            final(self).wf(),
            old(self).place() <= final(self).place(),
            match r {
                Ok(value) => {
                    &&& value_at(
                        old(self).text(),
                        skip_whitespace(old(self).text(), old(self).place()),
                    ) == Ok::<(JsonView, int), Fault>((value@, final(self).place()))
                    &&& value.wf()
                    &&& skip_whitespace(old(self).text(), old(self).place()) < final(self).place()
                },
                Err(e) => value_at(
                    old(self).text(),
                    skip_whitespace(old(self).text(), old(self).place()),
                ) == Err::<(JsonView, int), Fault>(e@),
            },
        decreases old(self).text().len() - old(self).place(), 2int,
    {
        self.skip_whitespace();
        let c = match self.current_char() {
            Some(c) => c,
            None => {
                return Err(self.fail(ErrorKind::SyntaxError));
            },
        };
        let ghost start = self.place();
        if c == '"' {
            proof {
                lemma_string_body_advances(self.text(), start + 1, Seq::empty());
            }
            match self.parse_string() {
                Ok(text) => Ok(JsonValue::String(text)),
                Err(e) => Err(e),
            }
        } else if c == '[' {
            match self.parse_array() {
                Ok(items) => {
                    proof {
                        lemma_array_view(items);
                        lemma_skip_whitespace(self.text(), start + 1);
                    }
                    Ok(JsonValue::Array(items))
                },
                Err(e) => Err(e),
            }
        } else if c == '{' {
            match self.parse_object() {
                Ok(object) => Ok(JsonValue::Object(object)),
                Err(e) => Err(e),
            }
        } else if c == 't' {
            let word = vec!['t', 'r', 'u', 'e'];
            if self.at_word(&word) {
                proof {
                    assert(word@ =~= seq!['t', 'r', 'u', 'e']);
                }
                self.skip_chars(4);
                Ok(JsonValue::Bool(true))
            } else {
                proof {
                    assert(word@ =~= seq!['t', 'r', 'u', 'e']);
                }
                Err(self.fail(ErrorKind::LexicalError))
            }
        } else if c == 'f' {
            let word = vec!['f', 'a', 'l', 's', 'e'];
            if self.at_word(&word) {
                proof {
                    assert(word@ =~= seq!['f', 'a', 'l', 's', 'e']);
                }
                self.skip_chars(5);
                Ok(JsonValue::Bool(false))
            } else {
                proof {
                    assert(word@ =~= seq!['f', 'a', 'l', 's', 'e']);
                }
                Err(self.fail(ErrorKind::LexicalError))
            }
        } else if c == 'n' {
            let word = vec!['n', 'u', 'l', 'l'];
            if self.at_word(&word) {
                proof {
                    assert(word@ =~= seq!['n', 'u', 'l', 'l']);
                }
                self.skip_chars(4);
                Ok(JsonValue::Null)
            } else {
                proof {
                    assert(word@ =~= seq!['n', 'u', 'l', 'l']);
                }
                Err(self.fail(ErrorKind::LexicalError))
            }
        } else if char_is_digit(c) || c == '-' {
            proof {
                lemma_digits_end(self.text(), start);
                lemma_digits_end(self.text(), start + 1);
            }
            match self.parse_number() {
                Ok(number) => Ok(JsonValue::Number(number)),
                Err(e) => Err(e),
            }
        } else {
            Err(self.fail(ErrorKind::SyntaxError))
        }
    }

    /// Reads the whole text as one value: whitespace, a value, whitespace,
    /// and nothing more.
    pub fn parse(&mut self) -> (r: Result<JsonValue, ParseError>)
        requires
            old(self).wf(),
        ensures
            final(self).text() == old(self).text(),
            final(self).wf(),
            old(self).place() <= final(self).place(),
            match r {
                Ok(value) => document_from(old(self).text(), old(self).place()) == Ok::<
                    JsonView,
                    Fault,
                >(value@) && value.wf(),
                Err(e) => document_from(old(self).text(), old(self).place()) == Err::<
                    JsonView,
                    Fault,
                >(e@),
            },
    {
        self.skip_whitespace();
        if self.position >= self.input.len() {
            return Err(self.fail(ErrorKind::EmptyInput));
        }
        let value = match self.parse_value() {
            Ok(value) => value,
            Err(e) => {
                return Err(e);
            },
        };
        self.skip_whitespace();
        if self.position < self.input.len() {
            return Err(self.fail(ErrorKind::TrailingDataError));
        }
        Ok(value)
    }
}

/// An exponent at or beyond the cap may be read as the cap: a number other
/// than zero is beyond the limit with either, and zero is zero with both.
proof fn lemma_capped_shift(negative: bool, digits: Seq<u8>, exact: int, read: int)
    requires
        forall|i: int| 0 <= i < digits.len() ==> #[trigger] digits[i] <= 9,
        digits.len() <= usize::MAX,
        exact == read || (exact >= EXPONENT_CAP - usize::MAX && read >= EXPONENT_CAP - usize::MAX)
            || (exact <= usize::MAX - EXPONENT_CAP && read <= usize::MAX - EXPONENT_CAP),
    ensures
        ({
            let e = Decimal::normalized(negative, digits, exact);
            let r = Decimal::normalized(negative, digits, read);
            &&& (-EXPONENT_LIMIT <= r.exponent <= EXPONENT_LIMIT) <==> (-EXPONENT_LIMIT
                <= e.exponent <= EXPONENT_LIMIT)
            &&& (-EXPONENT_LIMIT <= r.exponent <= EXPONENT_LIMIT) ==> r == e
        }),
{
    lemma_normalized_shape(negative, digits, exact);
    lemma_normalized_shape(negative, digits, read);
    let e = Decimal::normalized(negative, digits, exact);
    let r = Decimal::normalized(negative, digits, read);
    assert(e.digits == r.digits);
}

/// Skipping whitespace twice is skipping it once.
pub proof fn lemma_skip_idempotent(s: Seq<char>, p: int)
    ensures
        skip_whitespace(s, skip_whitespace(s, p)) == skip_whitespace(s, p),
    decreases s.len() - p,
{
    if 0 <= p < s.len() && is_whitespace(s[p]) {
        lemma_skip_idempotent(s, p + 1);
    }
}

/// Reads `text` as one value.
pub fn parse_json(text: &str) -> (r: Result<JsonValue, ParseError>)
    ensures
        match r {
            Ok(value) => document(text@) == Ok::<JsonView, Fault>(value@) && value.wf(),
            Err(e) => document(text@) == Err::<JsonView, Fault>(e@),
        },
{
    let mut parser = JsonParser::new(text);
    parser.parse()
}

} // verus!
