//! Reading back what the compact renderer wrote.

use vstd::prelude::*;
use crate::json::grammar::{
    digit_values, digits_end, document, has_word, is_at, items_at, lemma_digits_end,
    lemma_skip_whitespace, members_at, number_at, number_shape, number_value, skip_whitespace,
    string_at, string_body, value_at, Fault,
};
use crate::json::grammar::{lemma_string_body_advances, ErrorKind};
use crate::json::number::{
    digit_chars, first_nonzero, lemma_first_nonzero, lemma_normalized_shape, lemma_significant_end,
    significant_end, zeros, Decimal,
};
use crate::json::value::lemma_with_member_sorted;
use crate::json::render::{escape, escaped_from, quoted};
use crate::json::value::{
    key_less, keys_sorted, lemma_lower_bound, lower_bound, with_member, JsonView,
};
use crate::text::{digit_char, is_digit, is_whitespace, numeral};

verus! {

/// Whether a number that ends before `p` ends there: no digit, point or
/// exponent mark follows.
pub open spec fn token_ends(s: Seq<char>, p: int) -> bool {
    p >= s.len() || !(is_digit(s[p]) || s[p] == '.' || s[p] == 'e' || s[p] == 'E')
}

/// A word made of two parts stands where its parts stand one after the
/// other.
pub proof fn lemma_word_split(s: Seq<char>, p: int, a: Seq<char>, b: Seq<char>)
    requires
        has_word(s, p, a + b),
    ensures
        has_word(s, p, a),
        has_word(s, p + a.len(), b),
{
    let w = a + b;
    assert forall|i: int| 0 <= i < a.len() implies s[p + i] == #[trigger] a[i] by {
        assert(w[i] == a[i]);
    }
    assert forall|i: int| 0 <= i < b.len() implies s[p + a.len() + i] == #[trigger] b[i] by {
        assert(w[a.len() + i] == b[i]);
    }
}

/// The characters of a word stand in the text.
pub proof fn lemma_word_char(s: Seq<char>, p: int, word: Seq<char>, i: int)
    requires
        has_word(s, p, word),
        0 <= i < word.len(),
    ensures
        0 <= p + i < s.len(),
        s[p + i] == word[i],
{
}

/// Reading an escaped text up to its closing quote gives the text.
proof fn lemma_string_body_round_trip(s: Seq<char>, p: int, text: Seq<char>, from: int)
    requires
        0 <= p,
        0 <= from <= text.len(),
        has_word(s, p, escaped_from(text, from) + seq!['"']),
    ensures
        string_body(s, p, text.take(from)) == Ok::<(Seq<char>, int), Fault>(
            (text, p + escaped_from(text, from).len() + 1),
        ),
    decreases text.len() - from,
{
    let rest = escaped_from(text, from) + seq!['"'];
    if from == text.len() {
        lemma_word_char(s, p, rest, 0);
        assert(text.take(from) =~= text);
    } else {
        let c = text[from];
        let tail = escaped_from(text, from + 1) + seq!['"'];
        assert(rest =~= escape(c) + tail);
        lemma_word_split(s, p, escape(c), tail);
        lemma_word_char(s, p, escape(c), 0);
        assert(text.take(from).push(c) =~= text.take(from + 1));
        if c == '"' || c == '\\' {
            lemma_word_char(s, p, escape(c), 1);
            lemma_string_body_round_trip(s, p + 2, text, from + 1);
        } else {
            lemma_string_body_round_trip(s, p + 1, text, from + 1);
        }
    }
}

/// Reading a quoted text gives the text.
pub proof fn lemma_string_round_trip(s: Seq<char>, p: int, text: Seq<char>)
    requires
        0 <= p,
        has_word(s, p, quoted(text)),
    ensures
        string_at(s, p) == Ok::<(Seq<char>, int), Fault>((text, p + quoted(text).len())),
        quoted(text).len() >= 2,
{
    let body = escaped_from(text, 0) + seq!['"'];
    assert(quoted(text) =~= seq!['"'] + body);
    lemma_word_split(s, p, seq!['"'], body);
    lemma_word_char(s, p, seq!['"'], 0);
    lemma_string_body_round_trip(s, p + 1, text, 0);
    assert(text.take(0) =~= Seq::<char>::empty());
}

/// A run of digits that something else follows is read to its end.
proof fn lemma_digits_run(s: Seq<char>, from: int, to: int)
    requires
        0 <= from <= to <= s.len(),
        forall|i: int| from <= i < to ==> is_digit(#[trigger] s[i]),
        to < s.len() ==> !is_digit(s[to]),
    ensures
        digits_end(s, from) == to,
    decreases to - from,
{
    if from < to {
        assert(is_digit(s[from]));
        lemma_digits_run(s, from + 1, to);
    }
}

/// The digits of the first non-zero digit's place.
proof fn lemma_first_nonzero_is(digits: Seq<u8>, at: int)
    requires
        0 <= at <= digits.len(),
        forall|i: int| 0 <= i < at ==> digits[i] == 0,
        at < digits.len() ==> digits[at] != 0,
    ensures
        first_nonzero(digits, 0) == at,
{
    lemma_first_nonzero(digits, 0);
}

/// The place after the last non-zero digit.
proof fn lemma_significant_end_is(digits: Seq<u8>, at: int)
    requires
        0 <= at <= digits.len(),
        forall|i: int| at <= i < digits.len() ==> digits[i] == 0,
        at > 0 ==> digits[at - 1] != 0,
    ensures
        significant_end(digits, digits.len() as int) == at,
{
    lemma_significant_end(digits, digits.len() as int);
}

/// Whether every digit of `digits` is below ten.
pub open spec fn all_decimal(digits: Seq<u8>) -> bool {
    forall|i: int| 0 <= i < digits.len() ==> #[trigger] digits[i] <= 9
}

/// The digits that stand in a run of digit characters are read back.
proof fn lemma_read_run(s: Seq<char>, from: int, digits: Seq<u8>)
    requires
        0 <= from,
        all_decimal(digits),
        has_word(s, from, digit_chars(digits)),
        from + digits.len() < s.len() ==> !is_digit(s[from + digits.len()]),
    ensures
        digits_end(s, from) == from + digits.len(),
        digit_values(s, from, from + digits.len()) == digits,
{
    let to = from + digits.len();
    let word = digit_chars(digits);
    assert forall|i: int| from <= i < to implies is_digit(#[trigger] s[i]) by {
        lemma_word_char(s, from, word, i - from);
        assert(digits[i - from] <= 9);
    }
    lemma_digits_run(s, from, to);
    assert forall|i: int| 0 <= i < digits.len() implies digit_values(s, from, to)[i]
        == digits[i] by {
        lemma_word_char(s, from, word, i);
        assert(digits[i] <= 9);
    }
    assert(digit_values(s, from, to) =~= digits);
}

/// The text of a literal without exponent: a sign, the digits before the
/// point and, where there are any, a point and the digits after it.
pub open spec fn plain_literal(negative: bool, whole: Seq<u8>, fraction: Seq<u8>) -> Seq<char> {
    (if negative {
        seq!['-']
    } else {
        Seq::empty()
    }) + digit_chars(whole) + (if fraction.len() > 0 {
        seq!['.'] + digit_chars(fraction)
    } else {
        Seq::empty()
    })
}

/// The parts of a literal without exponent are found where they stand.
proof fn lemma_read_plain(
    s: Seq<char>,
    p: int,
    negative: bool,
    whole: Seq<u8>,
    fraction: Seq<u8>,
)
    requires
        0 <= p,
        whole.len() >= 1,
        all_decimal(whole),
        all_decimal(fraction),
        has_word(s, p, plain_literal(negative, whole, fraction)),
        token_ends(s, p + plain_literal(negative, whole, fraction).len()),
    ensures
        ({
            let shape = number_shape(s, p);
            let start = p + if negative {
                1int
            } else {
                0int
            };
            let point = start + whole.len();
            let end = p + plain_literal(negative, whole, fraction).len();
            &&& shape.negative == negative
            &&& shape.int_start == start
            &&& shape.int_end == point
            &&& shape.has_fraction == (fraction.len() > 0)
            &&& shape.fraction_end - shape.fraction_start == fraction.len()
            &&& shape.fraction_end == end
            &&& !shape.has_exponent
            &&& shape.exponent_end == end
            &&& shape.exponent_start == end
            &&& digit_values(s, shape.int_start, shape.int_end) == whole
            &&& digit_values(s, shape.fraction_start, shape.fraction_end) == fraction
        }),
{
    let sign: Seq<char> = if negative {
        seq!['-']
    } else {
        Seq::empty()
    };
    let tail: Seq<char> = if fraction.len() > 0 {
        seq!['.'] + digit_chars(fraction)
    } else {
        Seq::empty()
    };
    let text = plain_literal(negative, whole, fraction);
    let start = p + sign.len();
    let point = start + whole.len();
    let end = p + text.len();
    assert(text =~= sign + (digit_chars(whole) + tail));
    lemma_word_split(s, p, sign, digit_chars(whole) + tail);
    lemma_word_split(s, start, digit_chars(whole), tail);
    lemma_word_char(s, start, digit_chars(whole), 0);
    assert(whole[0] <= 9);
    assert(is_digit(s[start]));
    if negative {
        lemma_word_char(s, p, sign, 0);
    }
    assert(is_at(s, p, '-') == negative);
    if fraction.len() > 0 {
        lemma_word_split(s, point, seq!['.'], digit_chars(fraction));
        lemma_word_char(s, point, seq!['.'], 0);
        lemma_read_run(s, start, whole);
        lemma_read_run(s, point + 1, fraction);
    } else {
        lemma_read_run(s, start, whole);
        assert(digit_values(s, point, point) =~= fraction);
    }
}

/// The digits `digits` between `lead` zeros before and `trail` zeros after
/// them.
pub open spec fn padded(lead: int, digits: Seq<u8>, trail: int) -> Seq<u8> {
    Seq::new(
        if lead >= 0 && trail >= 0 {
            (lead + digits.len() + trail) as nat
        } else {
            0
        },
        |i: int|
            if lead <= i < lead + digits.len() {
                digits[i - lead]
            } else {
                0u8
            },
    )
}

/// Zeros before and after the digits of a number only move its power of
/// ten.
proof fn lemma_normalized_padded(negative: bool, lead: int, digits: Seq<u8>, trail: int, shift: int)
    requires
        lead >= 0,
        trail >= 0,
        digits.len() > 0,
        digits[0] != 0,
        digits[digits.len() - 1] != 0,
    ensures
        Decimal::normalized(negative, padded(lead, digits, trail), shift) == (Decimal {
            negative,
            digits,
            exponent: shift + trail,
        }),
{
    let all = padded(lead, digits, trail);
    lemma_first_nonzero_is(all, lead);
    lemma_significant_end_is(all, lead + digits.len());
    assert(all.subrange(lead, lead + digits.len()) =~= digits);
}

/// Reading the literal of a canonical number gives the number.
pub proof fn lemma_number_round_trip(s: Seq<char>, p: int, number: Decimal)
    requires
        0 <= p,
        number.canonical(),
        has_word(s, p, number.render()),
        token_ends(s, p + number.render().len()),
    ensures
        number_at(s, p) == Ok::<(Decimal, int), Fault>((number, p + number.render().len())),
        number.render().len() >= 1,
        is_digit(number.render()[0]) || number.render()[0] == '-',
{
    let n = number.digits.len() as int;
    let e = number.exponent;
    let none = Seq::<u8>::empty();
    assert(numeral(s, p + number.render().len(), p + number.render().len()) == 0);
    if n == 0 {
        let whole = seq![0u8];
        assert(number.render() =~= plain_literal(false, whole, none));
        lemma_read_plain(s, p, false, whole, none);
        assert(whole + none =~= whole);
        lemma_first_nonzero_is(whole, 1);
        assert(number_value(s, number_shape(s, p)) == Decimal::normalized(false, whole, 0));
        assert(number.digits =~= Seq::<u8>::empty());
        assert(number_value(s, number_shape(s, p)) == number);
    } else {
        assert(number.digits[0] <= 9);
        if e >= 0 {
            let whole = padded(0, number.digits, e);
            assert(digit_chars(whole) =~= digit_chars(number.digits) + zeros(e));
            assert(number.render() =~= plain_literal(number.negative, whole, none));
            lemma_read_plain(s, p, number.negative, whole, none);
            assert(whole + none =~= whole);
            lemma_normalized_padded(number.negative, 0, number.digits, e, 0);
            assert(number_value(s, number_shape(s, p)) == Decimal::normalized(
                number.negative,
                whole,
                0,
            ));
            assert(number_value(s, number_shape(s, p)) == number);
        } else if n > -e {
            let whole = number.digits.subrange(0, n + e);
            let fraction = number.digits.subrange(n + e, n);
            assert(number.render() =~= plain_literal(number.negative, whole, fraction));
            lemma_read_plain(s, p, number.negative, whole, fraction);
            assert(whole + fraction =~= padded(0, number.digits, 0));
            lemma_normalized_padded(number.negative, 0, number.digits, 0, e);
            assert(number_value(s, number_shape(s, p)) == Decimal::normalized(
                number.negative,
                whole + fraction,
                e,
            ));
            assert(number_value(s, number_shape(s, p)) == number);
        } else {
            let whole = seq![0u8];
            let fraction = padded(-e - n, number.digits, 0);
            assert(digit_chars(fraction) =~= zeros(-e - n) + digit_chars(number.digits));
            assert(digit_chars(whole) =~= seq!['0']);
            assert(number.render() =~= plain_literal(number.negative, whole, fraction));
            lemma_read_plain(s, p, number.negative, whole, fraction);
            assert(whole + fraction =~= padded(1 - e - n, number.digits, 0));
            lemma_normalized_padded(number.negative, 1 - e - n, number.digits, 0, e);
            assert(number_value(s, number_shape(s, p)) == Decimal::normalized(
                number.negative,
                whole + fraction,
                e,
            ));
            assert(number_value(s, number_shape(s, p)) == number);
        }
    }
}

/// The literal of a canonical number starts with a digit or a minus.
proof fn lemma_number_start(number: Decimal)
    requires
        number.canonical(),
    ensures
        number.render().len() >= 1,
        is_digit(number.render()[0]) || number.render()[0] == '-',
{
    if number.digits.len() > 0 && !number.negative {
        assert(number.digits[0] <= 9);
        assert(digit_chars(number.digits)[0] == digit_char(number.digits[0] as int));
    }
}

/// What a rendering starts with: a character that is no whitespace and
/// closes nothing.
pub open spec fn opens_value(c: char) -> bool {
    c == '"' || c == '[' || c == '{' || c == 't' || c == 'f' || c == 'n' || c == '-' || is_digit(c)
}

/// A rendering is not empty, and its first character opens a value.
pub proof fn lemma_render_start(value: JsonView)
    requires
        value.wf(),
    ensures
        value.render_compact().len() >= 1,
        opens_value(value.render_compact()[0]),
{
    match value {
        JsonView::Number(number) => {
            lemma_number_start(number);
        },
        _ => {},
    }
}

/// A character that opens a value is no whitespace and no closing bracket.
proof fn lemma_opens_value(c: char)
    requires
        opens_value(c),
    ensures
        !is_whitespace(c),
        c != ']',
        c != '}',
        c != ',',
        c != ':',
{
}

/// Setting, in the first members of a sorted object, the key of the member
/// that follows them appends that member.
proof fn lemma_with_member_appends(members: Seq<(Seq<char>, JsonView)>, k: int)
    requires
        keys_sorted(members),
        0 <= k < members.len(),
    ensures
        with_member(members.take(k), members[k].0, members[k].1) == members.take(k + 1),
{
    let head = members.take(k);
    let key = members[k].0;
    lemma_lower_bound(head, key, 0);
    let at = lower_bound(head, key, 0);
    if at < k {
        assert(head[at] == members[at]);
        assert(key_less(members[at].0, members[k].0));
    }
    assert(head.insert(k, members[k]) =~= members.take(k + 1));
}

/// Reading what the compact renderer wrote for `value`, wherever it stands
/// in a text, gives `value` and ends where the rendering ends.
pub proof fn lemma_value_round_trip(value: JsonView, s: Seq<char>, p: int)
    requires
        value.wf(),
        0 <= p,
        has_word(s, p, value.render_compact()),
        token_ends(s, p + value.render_compact().len()),
    ensures
        value_at(s, p) == Ok::<(JsonView, int), Fault>((value, p + value.render_compact().len())),
        value.render_compact().len() >= 1,
    decreases value, 0int,
{
    let text = value.render_compact();
    lemma_render_start(value);
    lemma_word_char(s, p, text, 0);
    match value {
        JsonView::Null => {
            assert(has_word(s, p, seq!['n', 'u', 'l', 'l']));
        },
        JsonView::Bool(b) => {
            if b {
                assert(has_word(s, p, seq!['t', 'r', 'u', 'e']));
            } else {
                assert(has_word(s, p, seq!['f', 'a', 'l', 's', 'e']));
            }
        },
        JsonView::Number(number) => {
            lemma_number_round_trip(s, p, number);
        },
        JsonView::String(content) => {
            lemma_string_round_trip(s, p, content);
        },
        JsonView::Array(items) => {
            let inner = JsonView::compact_items(items, 0) + seq![']'];
            assert(text =~= seq!['['] + inner);
            lemma_word_split(s, p, seq!['['], inner);
            lemma_word_char(s, p + 1, inner, 0);
            if items.len() == 0 {
                assert(items =~= Seq::<JsonView>::empty());
                assert(skip_whitespace(s, p + 1) == p + 1);
            } else {
                lemma_render_start(items[0]);
                lemma_opens_value(items[0].render_compact()[0]);
                assert(skip_whitespace(s, p + 1) == p + 1);
                assert(items.take(0) =~= Seq::<JsonView>::empty());
                lemma_items_round_trip(items, 0, s, p + 1);
            }
        },
        JsonView::Object(members) => {
            let inner = JsonView::compact_members(members, 0) + seq!['}'];
            assert(text =~= seq!['{'] + inner);
            lemma_word_split(s, p, seq!['{'], inner);
            lemma_word_char(s, p + 1, inner, 0);
            if members.len() == 0 {
                assert(members =~= Seq::<(Seq<char>, JsonView)>::empty());
                assert(skip_whitespace(s, p + 1) == p + 1);
            } else {
                assert(skip_whitespace(s, p + 1) == p + 1);
                assert(members.take(0) =~= Seq::<(Seq<char>, JsonView)>::empty());
                lemma_members_round_trip(members, 0, s, p + 1);
            }
        },
    }
}

/// Reading the items of an array from the item `k` on gives the array.
proof fn lemma_items_round_trip(items: Seq<JsonView>, k: int, s: Seq<char>, p: int)
    requires
        forall|i: int| 0 <= i < items.len() ==> (#[trigger] items[i]).wf(),
        0 <= k < items.len(),
        0 <= p,
        has_word(s, p, JsonView::compact_items(items, k) + seq![']']),
    ensures
        items_at(s, p, items.take(k)) == Ok::<(Seq<JsonView>, int), Fault>(
            (items, p + JsonView::compact_items(items, k).len() + 1),
        ),
    decreases items, items.len() - k,
{
    let item = items[k];
    let text = item.render_compact();
    let rest = JsonView::compact_items(items, k + 1) + seq![']'];
    let end = p + text.len();
    assert(items[k].wf());
    assert(items.take(k).push(item) =~= items.take(k + 1));
    if k + 1 < items.len() {
        assert(JsonView::compact_items(items, k) + seq![']'] =~= text + (seq![',', ' '] + rest));
        lemma_word_split(s, p, text, seq![',', ' '] + rest);
        lemma_word_split(s, end, seq![',', ' '], rest);
        lemma_word_char(s, end, seq![',', ' '], 0);
        lemma_word_char(s, end, seq![',', ' '], 1);
        lemma_value_round_trip(item, s, p);
        assert(items[k + 1].wf());
        lemma_render_start(items[k + 1]);
        lemma_opens_value(items[k + 1].render_compact()[0]);
        lemma_word_char(s, end + 2, rest, 0);
        assert(skip_whitespace(s, end) == end);
        assert(skip_whitespace(s, end + 2) == end + 2);
        assert(skip_whitespace(s, end + 1) == end + 2);
        lemma_items_round_trip(items, k + 1, s, end + 2);
    } else {
        assert(JsonView::compact_items(items, k + 1) =~= Seq::<char>::empty());
        assert(JsonView::compact_items(items, k) + seq![']'] =~= text + seq![']']);
        lemma_word_split(s, p, text, seq![']']);
        lemma_word_char(s, end, seq![']'], 0);
        lemma_value_round_trip(item, s, p);
        assert(skip_whitespace(s, end) == end);
        assert(items.take(k + 1) =~= items);
    }
}

/// Reading the members of an object from the member `k` on gives the
/// object.
proof fn lemma_members_round_trip(
    members: Seq<(Seq<char>, JsonView)>,
    k: int,
    s: Seq<char>,
    p: int,
)
    requires
        keys_sorted(members),
        forall|i: int| 0 <= i < members.len() ==> (#[trigger] members[i]).1.wf(),
        0 <= k < members.len(),
        0 <= p,
        has_word(s, p, JsonView::compact_members(members, k) + seq!['}']),
    ensures
        members_at(s, p, members.take(k)) == Ok::<(Seq<(Seq<char>, JsonView)>, int), Fault>(
            (members, p + JsonView::compact_members(members, k).len() + 1),
        ),
    decreases members, members.len() - k,
{
    let key = members[k].0;
    let value = members[k].1;
    let name = quoted(key);
    let text = value.render_compact();
    let rest = JsonView::compact_members(members, k + 1) + seq!['}'];
    let colon = p + name.len();
    let start = colon + 2;
    let end = start + text.len();
    assert(members[k].1.wf());
    lemma_with_member_appends(members, k);
    lemma_render_start(value);
    lemma_opens_value(text[0]);
    if k + 1 < members.len() {
        assert(JsonView::compact_members(members, k) + seq!['}'] =~= name + (seq![':', ' '] + (text
            + (seq![',', ' '] + rest))));
        lemma_word_split(s, p, name, seq![':', ' '] + (text + (seq![',', ' '] + rest)));
        lemma_word_split(s, colon, seq![':', ' '], text + (seq![',', ' '] + rest));
        lemma_word_split(s, start, text, seq![',', ' '] + rest);
        lemma_word_split(s, end, seq![',', ' '], rest);
        lemma_word_char(s, colon, seq![':', ' '], 0);
        lemma_word_char(s, colon, seq![':', ' '], 1);
        lemma_word_char(s, start, text, 0);
        lemma_word_char(s, end, seq![',', ' '], 0);
        lemma_word_char(s, end, seq![',', ' '], 1);
        lemma_string_round_trip(s, p, key);
        assert(skip_whitespace(s, colon) == colon);
        assert(skip_whitespace(s, start) == start);
        assert(skip_whitespace(s, colon + 1) == start);
        lemma_value_round_trip(value, s, start);
        lemma_word_char(s, end + 2, rest, 0);
        assert(rest[0] == '"') by {
            assert(quoted(members[k + 1].0)[0] == '"');
        }
        assert(skip_whitespace(s, end) == end);
        assert(skip_whitespace(s, end + 2) == end + 2);
        assert(skip_whitespace(s, end + 1) == end + 2);
        lemma_members_round_trip(members, k + 1, s, end + 2);
    } else {
        assert(JsonView::compact_members(members, k + 1) =~= Seq::<char>::empty());
        assert(JsonView::compact_members(members, k) + seq!['}'] =~= name + (seq![':', ' '] + (text
            + seq!['}'])));
        lemma_word_split(s, p, name, seq![':', ' '] + (text + seq!['}']));
        lemma_word_split(s, colon, seq![':', ' '], text + seq!['}']);
        lemma_word_split(s, start, text, seq!['}']);
        lemma_word_char(s, colon, seq![':', ' '], 0);
        lemma_word_char(s, colon, seq![':', ' '], 1);
        lemma_word_char(s, start, text, 0);
        lemma_word_char(s, end, seq!['}'], 0);
        lemma_string_round_trip(s, p, key);
        assert(skip_whitespace(s, colon) == colon);
        assert(skip_whitespace(s, start) == start);
        assert(skip_whitespace(s, colon + 1) == start);
        lemma_value_round_trip(value, s, start);
        assert(skip_whitespace(s, end) == end);
        assert(members.take(k + 1) =~= members);
    }
}

/// Round trip: the compact rendering of a well-formed value reads back as
/// that value.
pub proof fn lemma_round_trip(value: JsonView)
    requires
        value.wf(),
    ensures
        document(value.render_compact()) == Ok::<JsonView, Fault>(value),
{
    let s = value.render_compact();
    lemma_render_start(value);
    lemma_opens_value(s[0]);
    lemma_value_round_trip(value, s, 0);
    assert(skip_whitespace(s, 0) == 0);
    assert(skip_whitespace(s, s.len() as int) == s.len());
}

/// Setting a key to a well-formed value keeps the values well formed.
proof fn lemma_with_member_wf(members: Seq<(Seq<char>, JsonView)>, key: Seq<char>, value: JsonView)
    requires
        keys_sorted(members),
        forall|i: int| 0 <= i < members.len() ==> (#[trigger] members[i]).1.wf(),
        value.wf(),
    ensures
        keys_sorted(with_member(members, key, value)),
        forall|i: int|
            0 <= i < with_member(members, key, value).len() ==> (#[trigger] with_member(
                members,
                key,
                value,
            )[i]).1.wf(),
{
    lemma_with_member_sorted(members, key, value);
    lemma_lower_bound(members, key, 0);
    let at = lower_bound(members, key, 0);
    let after = with_member(members, key, value);
    assert forall|i: int| 0 <= i < after.len() implies (#[trigger] after[i]).1.wf() by {
        if i != at {
            let j = if after.len() == members.len() || i < at {
                i
            } else {
                i - 1
            };
            assert(after[i] == members[j]);
        }
    }
}

/// A number that is read is canonical, and its literal is not empty.
proof fn lemma_number_wf(s: Seq<char>, p: int)
    requires
        0 <= p < s.len(),
    ensures
        match number_at(s, p) {
            Ok((number, end)) => number.canonical() && p < end <= s.len(),
            Err(_) => true,
        },
{
    let shape = number_shape(s, p);
    lemma_digits_end(s, shape.int_start);
    lemma_digits_end(s, shape.fraction_start);
    lemma_digits_end(s, shape.exponent_start);
    let digits = digit_values(s, shape.int_start, shape.int_end) + digit_values(
        s,
        shape.fraction_start,
        shape.fraction_end,
    );
    if number_at(s, p) is Ok {
        assert forall|i: int| 0 <= i < digits.len() implies #[trigger] digits[i] <= 9 by {
            if i < shape.int_end - shape.int_start {
                assert(is_digit(s[shape.int_start + i]));
            } else {
                assert(is_digit(s[shape.fraction_start + (i - (shape.int_end - shape.int_start))]));
            }
        }
        let written = numeral(s, shape.exponent_start, shape.exponent_end) as int;
        let power = if shape.exponent_negative {
            -written
        } else {
            written
        };
        lemma_normalized_shape(
            shape.negative,
            digits,
            power - (shape.fraction_end - shape.fraction_start),
        );
    }
}

/// What the grammar reads as a value is well formed, and takes at least one
/// character of the text.
pub proof fn lemma_value_wf(s: Seq<char>, p: int)
    ensures
        match value_at(s, p) {
            Ok((value, end)) => value.wf() && 0 <= p < end <= s.len(),
            Err(_) => true,
        },
    decreases s.len() - p, 2int,
{
    if 0 <= p < s.len() {
        if s[p] == '"' {
            lemma_string_body_advances(s, p + 1, Seq::empty());
        } else if s[p] == '[' {
            let first = skip_whitespace(s, p + 1);
            lemma_skip_whitespace(s, p + 1);
            if !is_at(s, first, ']') {
                lemma_items_wf(s, first, Seq::empty());
            }
        } else if s[p] == '{' {
            let first = skip_whitespace(s, p + 1);
            lemma_skip_whitespace(s, p + 1);
            if !is_at(s, first, '}') {
                lemma_members_wf(s, first, Seq::empty());
            }
        } else if is_digit(s[p]) || s[p] == '-' {
            lemma_number_wf(s, p);
        }
    }
}

/// The items that the grammar reads are well formed.
proof fn lemma_items_wf(s: Seq<char>, p: int, read: Seq<JsonView>)
    requires
        forall|i: int| 0 <= i < read.len() ==> (#[trigger] read[i]).wf(),
    ensures
        match items_at(s, p, read) {
            Ok((items, end)) => {
                &&& forall|i: int| 0 <= i < items.len() ==> (#[trigger] items[i]).wf()
                &&& 0 <= p < end <= s.len()
            },
            Err(_) => true,
        },
    decreases s.len() - p, 3int,
{
    lemma_value_wf(s, p);
    match value_at(s, p) {
        Err(_) => {},
        Ok((item, end)) => {
            let next = skip_whitespace(s, end);
            lemma_skip_whitespace(s, end);
            lemma_skip_whitespace(s, next + 1);
            let longer = read.push(item);
            assert forall|i: int| 0 <= i < longer.len() implies (#[trigger] longer[i]).wf() by {
                if i < read.len() {
                    assert(longer[i] == read[i]);
                }
            }
            if is_at(s, next, ',') {
                lemma_items_wf(s, skip_whitespace(s, next + 1), longer);
            }
        },
    }
}

/// The members that the grammar reads are in the order of their keys and
/// well formed.
proof fn lemma_members_wf(s: Seq<char>, p: int, read: Seq<(Seq<char>, JsonView)>)
    requires
        keys_sorted(read),
        forall|i: int| 0 <= i < read.len() ==> (#[trigger] read[i]).1.wf(),
    ensures
        match members_at(s, p, read) {
            Ok((members, end)) => {
                &&& keys_sorted(members)
                &&& forall|i: int| 0 <= i < members.len() ==> (#[trigger] members[i]).1.wf()
                &&& 0 <= p < end <= s.len()
            },
            Err(_) => true,
        },
    decreases s.len() - p, 3int,
{
    match string_at(s, p) {
        Err(_) => {},
        Ok((key, key_end)) => {
            let colon = skip_whitespace(s, key_end);
            let start = skip_whitespace(s, colon + 1);
            lemma_string_body_advances(s, p + 1, Seq::empty());
            lemma_skip_whitespace(s, key_end);
            lemma_skip_whitespace(s, colon + 1);
            if is_at(s, colon, ':') {
                lemma_value_wf(s, start);
                match value_at(s, start) {
                    Err(_) => {},
                    Ok((value, end)) => {
                        let next = skip_whitespace(s, end);
                        lemma_skip_whitespace(s, end);
                        lemma_skip_whitespace(s, next + 1);
                        lemma_with_member_wf(read, key, value);
                        if is_at(s, next, ',') {
                            lemma_members_wf(
                                s,
                                skip_whitespace(s, next + 1),
                                with_member(read, key, value),
                            );
                        }
                    },
                }
            }
        },
    }
}

/// What is read from a text is well formed: its numbers are canonical and
/// the keys of its objects are in order, each key once.
pub proof fn lemma_document_wf(s: Seq<char>)
    ensures
        match document(s) {
            Ok(value) => value.wf(),
            Err(_) => true,
        },
{
    lemma_value_wf(s, skip_whitespace(s, 0));
}

/// Round trip from a text: where a text reads as a value, the compact
/// rendering of that value reads as the same value.
pub proof fn lemma_read_render_read(s: Seq<char>)
    ensures
        match document(s) {
            Ok(value) => document(value.render_compact()) == Ok::<JsonView, Fault>(value),
            Err(_) => true,
        },
{
    lemma_document_wf(s);
    match document(s) {
        Ok(value) => {
            lemma_round_trip(value);
        },
        Err(_) => {},
    }
}

/// A text without a value has the fault of empty input, and only such a
/// text has it.
pub proof fn lemma_empty_input(s: Seq<char>)
    ensures
        (forall|i: int| 0 <= i < s.len() ==> is_whitespace(#[trigger] s[i])) <==> (document(s)
            matches Err(fault) && fault.kind == ErrorKind::EmptyInput),
{
    lemma_skip_whitespace(s, 0);
    let start = skip_whitespace(s, 0);
    if start < s.len() {
        assert(!is_whitespace(s[start]));
        lemma_faults_of_value(s, start);
    }
}

/// Reading a value never gives the faults that belong to the whole text.
pub proof fn lemma_faults_of_value(s: Seq<char>, p: int)
    ensures
        match value_at(s, p) {
            Err(fault) => fault.kind == ErrorKind::LexicalError || fault.kind
                == ErrorKind::SyntaxError,
            Ok(_) => true,
        },
    decreases s.len() - p, 2int,
{
    if 0 <= p < s.len() {
        if s[p] == '"' {
            lemma_string_body_advances(s, p + 1, Seq::empty());
        } else if s[p] == '[' {
            let first = skip_whitespace(s, p + 1);
            lemma_skip_whitespace(s, p + 1);
            if !is_at(s, first, ']') {
                lemma_faults_of_items(s, first, Seq::empty());
            }
        } else if s[p] == '{' {
            let first = skip_whitespace(s, p + 1);
            lemma_skip_whitespace(s, p + 1);
            if !is_at(s, first, '}') {
                lemma_faults_of_members(s, first, Seq::empty());
            }
        }
    }
}

proof fn lemma_faults_of_items(s: Seq<char>, p: int, read: Seq<JsonView>)
    ensures
        match items_at(s, p, read) {
            Err(fault) => fault.kind == ErrorKind::LexicalError || fault.kind
                == ErrorKind::SyntaxError,
            Ok(_) => true,
        },
    decreases s.len() - p, 3int,
{
    lemma_faults_of_value(s, p);
    match value_at(s, p) {
        Err(_) => {},
        Ok((item, end)) => {
            let next = skip_whitespace(s, end);
            lemma_skip_whitespace(s, end);
            lemma_skip_whitespace(s, next + 1);
            if end > p && is_at(s, next, ',') {
                lemma_faults_of_items(s, skip_whitespace(s, next + 1), read.push(item));
            }
        },
    }
}

proof fn lemma_faults_of_members(s: Seq<char>, p: int, read: Seq<(Seq<char>, JsonView)>)
    ensures
        match members_at(s, p, read) {
            Err(fault) => fault.kind == ErrorKind::LexicalError || fault.kind
                == ErrorKind::SyntaxError,
            Ok(_) => true,
        },
    decreases s.len() - p, 3int,
{
    match string_at(s, p) {
        Err(_) => {
            if is_at(s, p, '"') {
                lemma_string_body_advances(s, p + 1, Seq::empty());
            }
        },
        Ok((key, key_end)) => {
            let colon = skip_whitespace(s, key_end);
            let start = skip_whitespace(s, colon + 1);
            lemma_string_body_advances(s, p + 1, Seq::empty());
            lemma_skip_whitespace(s, key_end);
            lemma_skip_whitespace(s, colon + 1);
            if is_at(s, colon, ':') {
                lemma_faults_of_value(s, start);
                match value_at(s, start) {
                    Err(_) => {},
                    Ok((value, end)) => {
                        let next = skip_whitespace(s, end);
                        lemma_skip_whitespace(s, end);
                        lemma_skip_whitespace(s, next + 1);
                        if end > start && is_at(s, next, ',') {
                            lemma_faults_of_members(
                                s,
                                skip_whitespace(s, next + 1),
                                with_member(read, key, value),
                            );
                        }
                    },
                }
            }
        },
    }
}

} // verus!
