//! Conversions between strings, character vectors and decimal numerals.

use vstd::prelude::*;
use vstd::string::StringExecFns;

verus! {

/// `String::push` appends one character to the end of the string.
pub assume_specification[ std::string::String::push ](s: &mut std::string::String, c: char)
    ensures
        final(s)@ == old(s)@.push(c),
;

/// The characters of `s`, in order.
pub fn chars_of(s: &str) -> (v: Vec<char>)
    ensures
        v@ == s@,
{
    let mut v: Vec<char> = Vec::new();
    for c in it: s.chars()
        invariant
            v@ == it.seq().take(it.index()),
            it.seq() == s@,
    {
        v.push(c);
    }
    v
}

/// A string holding the characters of `v`, in order.
pub fn text_of(v: &Vec<char>) -> (s: String)
    ensures
        s@ == v@,
{
    let mut s = String::new();
    let mut i: usize = 0;
    while i < v.len()
        invariant
            i <= v.len(),
            s@ == v@.take(i as int),
        decreases v.len() - i,
    {
        s.push(v[i]);
        proof {
            assert(v@.take(i as int + 1) =~= v@.take(i as int).push(v@[i as int]));
        }
        i += 1;
    }
    proof {
        assert(v@.take(v@.len() as int) =~= v@);
    }
    s
}

/// Appends the characters of `tail` to `out`.
pub fn push_all(out: &mut Vec<char>, tail: &Vec<char>)
    ensures
        final(out)@ == old(out)@ + tail@,
{
    let mut i: usize = 0;
    while i < tail.len()
        invariant
            i <= tail.len(),
            out@ == old(out)@ + tail@.take(i as int),
        decreases tail.len() - i,
    {
        out.push(tail[i]);
        proof {
            assert(tail@.take(i as int + 1) =~= tail@.take(i as int).push(tail@[i as int]));
            assert(out@ =~= old(out)@ + tail@.take(i as int + 1));
        }
        i += 1;
    }
    proof {
        assert(tail@.take(tail@.len() as int) =~= tail@);
    }
}

/// Appends the characters of `tail` to `out`.
pub fn push_str(out: &mut Vec<char>, tail: &str)
    ensures
        final(out)@ == old(out)@ + tail@,
{
    for c in it: tail.chars()
        invariant
            out@ == old(out)@ + it.seq().take(it.index()),
            it.seq() == tail@,
    {
        out.push(c);
        proof {
            assert(it.seq().take(it.index() + 1) =~= it.seq().take(it.index()).push(c));
            assert(out@ =~= old(out)@ + it.seq().take(it.index() + 1));
        }
    }
    proof {
        assert(tail@.take(tail@.len() as int) =~= tail@);
    }
}

/// The character that writes the digit `d`.
pub open spec fn digit_char(d: int) -> char {
    if d == 0 {
        '0'
    } else if d == 1 {
        '1'
    } else if d == 2 {
        '2'
    } else if d == 3 {
        '3'
    } else if d == 4 {
        '4'
    } else if d == 5 {
        '5'
    } else if d == 6 {
        '6'
    } else if d == 7 {
        '7'
    } else if d == 8 {
        '8'
    } else {
        '9'
    }
}

/// Whether `c` is one of the ten decimal digits.
pub open spec fn is_digit(c: char) -> bool {
    '0' <= c <= '9'
}

/// The value of the decimal digit `c`.
pub open spec fn digit_value(c: char) -> int {
    c as int - '0' as int
}

/// The decimal numeral of `n`, without leading zeros (`"0"` for zero).
pub open spec fn decimal(n: nat) -> Seq<char>
    decreases n,
{
    if n < 10 {
        seq![digit_char(n as int)]
    } else {
        decimal(n / 10).push(digit_char((n % 10) as int))
    }
}

/// The character that writes the digit `d`.
pub fn digit_to_char(d: u8) -> (c: char)
    ensures
        c == digit_char(d as int),
        is_digit(c),
        d <= 9 ==> digit_value(c) == d,
{
    match d {
        0 => '0',
        1 => '1',
        2 => '2',
        3 => '3',
        4 => '4',
        5 => '5',
        6 => '6',
        7 => '7',
        8 => '8',
        _ => '9',
    }
}

/// Whether `c` is one of the ten decimal digits.
pub fn char_is_digit(c: char) -> (b: bool)
    ensures
        b == is_digit(c),
{
    c >= '0' && c <= '9'
}

/// The value of the decimal digit `c`.
pub fn char_digit_value(c: char) -> (d: u8)
    requires
        is_digit(c),
    ensures
        d == digit_value(c),
        d <= 9,
        digit_char(d as int) == c,
{
    (c as u32 - '0' as u32) as u8
}

/// The decimal numeral of `n` as characters.
pub fn decimal_text_wide(n: u128) -> (v: Vec<char>)
    ensures
        v@ == decimal(n as nat),
    decreases n,
{
    if n < 10 {
        let mut v: Vec<char> = Vec::new();
        v.push(digit_to_char(n as u8));
        v
    } else {
        let mut v = decimal_text_wide(n / 10);
        v.push(digit_to_char((n % 10) as u8));
        v
    }
}

/// The decimal numeral of `n` as characters.
pub fn decimal_text(n: usize) -> (v: Vec<char>)
    ensures
        v@ == decimal(n as nat),
{
    decimal_text_wide(n as u128)
}

/// The number of bytes that `c` takes in UTF-8.
pub open spec fn utf8_width(c: char) -> nat {
    if (c as u32) < 0x80 {
        1
    } else if (c as u32) < 0x800 {
        2
    } else if (c as u32) < 0x10000 {
        3
    } else {
        4
    }
}

/// The number of bytes that the first `upto` characters of `text` take in
/// UTF-8.
pub open spec fn utf8_length(text: Seq<char>, upto: int) -> nat
    decreases upto,
{
    if upto <= 0 || upto > text.len() {
        0
    } else {
        utf8_length(text, upto - 1) + utf8_width(text[upto - 1])
    }
}

/// The number of bytes that `text` takes in UTF-8.
pub fn utf8_len(text: &Vec<char>) -> (n: u128)
    ensures
        n == utf8_length(text@, text@.len() as int),
{
    let mut n: u128 = 0;
    let mut i: usize = 0;
    while i < text.len()
        invariant
            i <= text.len(),
            n == utf8_length(text@, i as int),
            n <= 4 * i,
        decreases text.len() - i,
    {
        let u = text[i] as u32;
        let width: u128 = if u < 0x80 {
            1
        } else if u < 0x800 {
            2
        } else if u < 0x10000 {
            3
        } else {
            4
        };
        n = n + width;
        i += 1;
    }
    n
}

/// Whether `c` is Unicode whitespace.
pub open spec fn is_whitespace(c: char) -> bool {
    let u = c as u32;
    ||| 0x09 <= u <= 0x0D
    ||| u == 0x20
    ||| u == 0x85
    ||| u == 0xA0
    ||| u == 0x1680
    ||| 0x2000 <= u <= 0x200A
    ||| u == 0x2028
    ||| u == 0x2029
    ||| u == 0x202F
    ||| u == 0x205F
    ||| u == 0x3000
}

/// Whether `c` is Unicode whitespace.
pub fn char_is_whitespace(c: char) -> (b: bool)
    ensures
        b == is_whitespace(c),
{
    let u = c as u32;
    (0x09 <= u && u <= 0x0D) || u == 0x20 || u == 0x85 || u == 0xA0 || u == 0x1680 || (0x2000 <= u
        && u <= 0x200A) || u == 0x2028 || u == 0x2029 || u == 0x202F || u == 0x205F || u == 0x3000
}

/// The natural number that the digits from `from` up to `to` write.
pub open spec fn numeral(s: Seq<char>, from: int, to: int) -> nat
    decreases to - from,
{
    if to <= from {
        0
    } else {
        (10 * numeral(s, from, to - 1) + digit_value(s[to - 1])) as nat
    }
}

/// The first position from `from` up to `to` that holds `c` (`to` where
/// there is none).
pub open spec fn find(s: Seq<char>, c: char, from: int, to: int) -> int
    decreases to - from,
{
    if from >= to {
        to
    } else if s[from] == c {
        from
    } else {
        find(s, c, from + 1, to)
    }
}

/// The number that stands from `from` up to `to`: an optional plus sign and
/// at least one digit, nothing else.
pub open spec fn index_value(s: Seq<char>, from: int, to: int) -> Option<nat> {
    let start = if from < to && s[from] == '+' {
        from + 1
    } else {
        from
    };
    if start < to && (forall|i: int| start <= i < to ==> is_digit(#[trigger] s[i])) {
        Some(numeral(s, start, to))
    } else {
        None
    }
}

/// `find` stays between its bounds.
pub proof fn lemma_find(s: Seq<char>, c: char, from: int, to: int)
    requires
        from <= to,
    ensures
        from <= find(s, c, from, to) <= to,
        find(s, c, from, to) < to ==> s[find(s, c, from, to)] == c,
        forall|i: int| from <= i < find(s, c, from, to) ==> s[i] != c,
    decreases to - from,
{
    if from < to && s[from] != c {
        lemma_find(s, c, from + 1, to);
    }
}

/// The first position from `from` up to `to` that holds `c`.
pub fn find_char(s: &Vec<char>, c: char, from: usize, to: usize) -> (r: usize)
    requires
        from <= to <= s.len(),
    ensures
        r == find(s@, c, from as int, to as int),
        from <= r <= to,
{
    let mut i: usize = from;
    while i < to && s[i] != c
        invariant
            from <= i <= to <= s.len(),
            find(s@, c, from as int, to as int) == find(s@, c, i as int, to as int),
        decreases to - i,
    {
        i += 1;
    }
    i
}

/// The characters of `s` from `from` up to `to`.
pub fn slice_of(s: &Vec<char>, from: usize, to: usize) -> (r: Vec<char>)
    requires
        from <= to <= s.len(),
    ensures
        r@ == s@.subrange(from as int, to as int),
{
    let mut r: Vec<char> = Vec::new();
    let mut i: usize = from;
    while i < to
        invariant
            from <= i <= to <= s.len(),
            r@ == s@.subrange(from as int, i as int),
        decreases to - i,
    {
        r.push(s[i]);
        proof {
            assert(r@ =~= s@.subrange(from as int, i as int + 1));
        }
        i += 1;
    }
    r
}

/// The number that is written grows with every digit.
pub proof fn lemma_numeral_grows(s: Seq<char>, from: int, mid: int, to: int)
    requires
        0 <= from <= mid <= to <= s.len(),
        forall|i: int| from <= i < to ==> is_digit(#[trigger] s[i]),
    ensures
        numeral(s, from, mid) <= numeral(s, from, to),
    decreases to - mid,
{
    if mid < to {
        lemma_numeral_grows(s, from, mid, to - 1);
        assert(is_digit(s[to - 1]));
    }
}

/// The index that stands from `from` up to `to`, where it is one that the
/// machine can hold.
pub fn read_index(s: &Vec<char>, from: usize, to: usize) -> (r: Option<usize>)
    requires
        from <= to <= s.len(),
    ensures
        match r {
            Some(index) => index_value(s@, from as int, to as int) == Some(index as nat),
            None => match index_value(s@, from as int, to as int) {
                Some(index) => index > usize::MAX,
                None => true,
            },
        },
{
    let start: usize = if from < to && s[from] == '+' {
        from + 1
    } else {
        from
    };
    if start >= to {
        return None;
    }
    let mut value: usize = 0;
    let mut i: usize = start;
    while i < to
        invariant
            from <= start <= i <= to <= s.len(),
            start as int == if from < to && s@[from as int] == '+' {
                from + 1
            } else {
                from as int
            },
            forall|j: int| start <= j < i ==> is_digit(#[trigger] s@[j]),
            value == numeral(s@, start as int, i as int),
        decreases to - i,
    {
        if !char_is_digit(s[i]) {
            proof {
                assert(!is_digit(s@[i as int]));
            }
            return None;
        }
        let d = char_digit_value(s[i]) as usize;
        if value > (usize::MAX - d) / 10 {
            proof {
                if index_value(s@, from as int, to as int) is Some {
                    lemma_numeral_grows(s@, start as int, i as int + 1, to as int);
                }
            }
            return None;
        }
        value = value * 10 + d;
        i += 1;
    }
    Some(value)
}

/// The first position at or after `p` that holds whitespace (the length
/// where there is none).
pub open spec fn word_end(s: Seq<char>, p: int) -> int
    decreases s.len() - p,
{
    if 0 <= p < s.len() && !is_whitespace(s[p]) {
        word_end(s, p + 1)
    } else {
        p
    }
}

/// The first position at or after `p` that holds no whitespace.
pub open spec fn word_start(s: Seq<char>, p: int) -> int
    decreases s.len() - p,
{
    if 0 <= p < s.len() && is_whitespace(s[p]) {
        word_start(s, p + 1)
    } else {
        p
    }
}

/// A word starts at or after the place from which it is looked for.
pub proof fn lemma_word_forward(s: Seq<char>, p: int)
    ensures
        p <= word_start(s, p),
        p <= word_end(s, p),
        p <= s.len() ==> word_start(s, p) <= s.len() && word_end(s, p) <= s.len(),
    decreases s.len() - p,
{
    if 0 <= p < s.len() {
        lemma_word_forward(s, p + 1);
    }
}

/// `word_end` and `word_start` move forward and stay within the text.
pub proof fn lemma_word_bounds(s: Seq<char>, p: int)
    requires
        0 <= p <= s.len(),
    ensures
        p <= word_start(s, p) <= s.len(),
        p <= word_end(s, p) <= s.len(),
        p < s.len() && !is_whitespace(s[p]) ==> word_end(s, p) > p,
        word_start(s, p) < s.len() ==> !is_whitespace(s[word_start(s, p)]),
    decreases s.len() - p,
{
    if p < s.len() {
        lemma_word_bounds(s, p + 1);
    }
}

/// Whether two texts hold the same characters.
pub fn str_equals(a: &str, b: &str) -> (same: bool)
    ensures
        same == (a@ == b@),
{
    a.to_owned() == b.to_owned()
}

/// The lower-case form of an ASCII capital letter; any other character
/// itself.
pub open spec fn ascii_lower(c: char) -> char {
    if 'A' <= c <= 'Z' {
        ((c as u8) + 32) as char
    } else {
        c
    }
}

/// The lower-case form of an ASCII capital letter; any other character
/// itself.
pub fn char_ascii_lower(c: char) -> (r: char)
    ensures
        r == ascii_lower(c),
{
    if c >= 'A' && c <= 'Z' {
        ((c as u8) + 32) as char
    } else {
        c
    }
}

/// Whether two texts are the same but for the case of their ASCII
/// letters.
pub open spec fn same_ignoring_case(a: Seq<char>, b: Seq<char>) -> bool {
    &&& a.len() == b.len()
    &&& forall|i: int| 0 <= i < a.len() ==> ascii_lower(#[trigger] a[i]) == ascii_lower(b[i])
}

/// Whether two texts are the same but for the case of their ASCII
/// letters.
pub fn eq_ignoring_case(a: &str, b: &str) -> (same: bool)
    ensures
        same == same_ignoring_case(a@, b@),
{
    let x = chars_of(a);
    let y = chars_of(b);
    if x.len() != y.len() {
        return false;
    }
    let mut i: usize = 0;
    while i < x.len()
        invariant
            i <= x.len(),
            x.len() == y.len(),
            x@ == a@,
            y@ == b@,
            forall|j: int| 0 <= j < i ==> ascii_lower(#[trigger] x@[j]) == ascii_lower(y@[j]),
        decreases x.len() - i,
    {
        if char_ascii_lower(x[i]) != char_ascii_lower(y[i]) {
            return false;
        }
        i += 1;
    }
    true
}

/// The lower-case form of a text, as Unicode defines it.
pub uninterp spec fn lowercase(s: Seq<char>) -> Seq<char>;

/// `str::to_lowercase` gives the lower-case form of the text, which
/// depends on the text alone.
#[verifier::external_body]
pub(crate) fn to_lowercase(s: &str) -> (r: String)
    ensures
        r@ == lowercase(s@),
{
    s.to_lowercase()
}

/// Whether Unicode counts `c` among the letters and digits.
pub uninterp spec fn alphanumeric(c: char) -> bool;

/// Whether `c` is an ASCII letter or an ASCII digit.
pub open spec fn ascii_alphanumeric(c: char) -> bool {
    'a' <= c <= 'z' || 'A' <= c <= 'Z' || '0' <= c <= '9'
}

/// `char::is_alphanumeric` says whether the character is a letter or a
/// digit, which depends on the character alone. The ASCII letters and
/// digits are among them.
#[verifier::external_body]
pub(crate) fn char_is_alphanumeric(c: char) -> (b: bool)
    ensures
        b == alphanumeric(c),
        ascii_alphanumeric(c) ==> b,
{
    c.is_alphanumeric()
}

/// Whether Unicode counts `c` among the letters.
pub uninterp spec fn alphabetic(c: char) -> bool;

/// `char::is_alphabetic` says whether the character is a letter, which
/// depends on the character alone.
#[verifier::external_body]
pub(crate) fn char_is_alphabetic(c: char) -> (b: bool)
    ensures
        b == alphabetic(c),
{
    c.is_alphabetic()
}

/// The three texts one after the other.
pub fn join3(a: &str, b: &str, c: &str) -> (r: String)
    ensures
        r@ == a@ + b@ + c@,
{
    let mut r = String::new();
    r.append(a);
    r.append(b);
    r.append(c);
    proof {
        assert(r@ =~= a@ + b@ + c@);
    }
    r
}

/// The decimal numeral of an integer, with a minus before a negative one.
pub open spec fn int_decimal(n: int) -> Seq<char> {
    if n < 0 {
        seq!['-'] + decimal((-n) as nat)
    } else {
        decimal(n as nat)
    }
}

/// The decimal numeral of `n`.
pub fn int_text(n: i32) -> (r: String)
    ensures
        r@ == int_decimal(n as int),
{
    let mut out: Vec<char> = Vec::new();
    if n < 0 {
        out.push('-');
        let digits = decimal_text_wide((-(n as i64)) as u128);
        push_all(&mut out, &digits);
    } else {
        let digits = decimal_text_wide(n as u128);
        push_all(&mut out, &digits);
    }
    proof {
        assert(out@ =~= int_decimal(n as int));
    }
    text_of(&out)
}

} // verus!
