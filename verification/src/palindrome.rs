//! Palindromes: texts that read the same in both directions, once
//! everything but letters and digits is left out and capitals are made
//! small.

use vstd::prelude::*;
use crate::text::{alphanumeric, ascii_lower, char_ascii_lower, char_is_alphanumeric, chars_of};

verus! {

/// The letters and digits among the first `upto` characters of `s`, ASCII
/// capitals made small.
pub open spec fn cleaned(s: Seq<char>, upto: int) -> Seq<char>
    decreases upto,
{
    if upto <= 0 || upto > s.len() {
        Seq::empty()
    } else if alphanumeric(s[upto - 1]) {
        cleaned(s, upto - 1).push(ascii_lower(s[upto - 1]))
    } else {
        cleaned(s, upto - 1)
    }
}

/// Whether `t` reads the same from both ends.
pub open spec fn mirrored(t: Seq<char>) -> bool {
    forall|i: int| 0 <= i < t.len() ==> #[trigger] t[i] == t[t.len() - 1 - i]
}

/// Whether `s` is a palindrome.
pub open spec fn is_palindrome(s: Seq<char>) -> bool {
    mirrored(cleaned(s, s.len() as int))
}

/// A text reads the same from both ends exactly when it is its own
/// reverse.
pub proof fn lemma_mirrored_reverse(t: Seq<char>)
    ensures
        mirrored(t) <==> t == t.reverse(),
{
    if mirrored(t) {
        assert(t =~= t.reverse());
    }
    if t == t.reverse() {
        assert forall|i: int| 0 <= i < t.len() implies #[trigger] t[i] == t[t.len() - 1 - i] by {
            assert(t.reverse()[i] == t[t.len() - 1 - i]);
        }
    }
}

/// The letters and digits of `s`, ASCII capitals made small.
pub fn clean(s: &str) -> (t: Vec<char>)
    ensures
        t@ == cleaned(s@, s@.len() as int),
{
    let chars = chars_of(s);
    let mut t: Vec<char> = Vec::new();
    let mut i: usize = 0;
    while i < chars.len()
        invariant
            i <= chars.len(),
            chars@ == s@,
            t@ == cleaned(s@, i as int),
        decreases chars.len() - i,
    {
        if char_is_alphanumeric(chars[i]) {
            t.push(char_ascii_lower(chars[i]));
        }
        i += 1;
    }
    t
}

/// The characters of `t` from the last to the first.
pub fn reversed(t: &Vec<char>) -> (r: Vec<char>)
    ensures
        r@ == t@.reverse(),
{
    let len = t.len();
    let mut r: Vec<char> = Vec::new();
    let mut i: usize = 0;
    while i < len
        invariant
            i <= len,
            len == t.len(),
            r.len() == i,
            forall|j: int| 0 <= j < i ==> #[trigger] r[j] == t[len - 1 - j],
        decreases len - i,
    {
        r.push(t[len - 1 - i]);
        i += 1;
    }
    proof {
        assert(r@ =~= t@.reverse());
    }
    r
}

/// Whether `a` and `b` hold the same characters.
pub fn same_chars(a: &Vec<char>, b: &Vec<char>) -> (same: bool)
    ensures
        same == (a@ == b@),
{
    if a.len() != b.len() {
        return false;
    }
    let mut i: usize = 0;
    while i < a.len()
        invariant
            i <= a.len(),
            a.len() == b.len(),
            forall|j: int| 0 <= j < i ==> a[j] == b[j],
        decreases a.len() - i,
    {
        if a[i] != b[i] {
            return false;
        }
        i += 1;
    }
    proof {
        assert(a@ =~= b@);
    }
    true
}

/// Whether `t` reads the same from both ends, found by comparing the two
/// halves.
pub fn reads_both_ways(t: &Vec<char>) -> (same: bool)
    ensures
        same == mirrored(t@),
{
    let len = t.len();
    let mut i: usize = 0;
    while i < len / 2
        invariant
            i <= len / 2,
            len == t.len(),
            forall|j: int| 0 <= j < i ==> #[trigger] t[j] == t[len - 1 - j],
        decreases len / 2 - i,
    {
        if t[i] != t[len - 1 - i] {
            return false;
        }
        i += 1;
    }
    proof {
        assert forall|j: int| 0 <= j < len implies #[trigger] t[j] == t[len - 1 - j] by {
            if j >= len / 2 {
                let k = len - 1 - j;
                if k < len / 2 {
                    assert(t[k] == t[len - 1 - k]);
                }
            }
        }
    }
    true
}

/// Whether `s` is a palindrome: its cleaned text is compared with the
/// reverse of it.
pub fn is_palindrome_simple(s: &str) -> (r: bool)
    ensures
        r == is_palindrome(s@),
{
    let cleaned = clean(s);
    let backwards = reversed(&cleaned);
    proof {
        lemma_mirrored_reverse(cleaned@);
    }
    same_chars(&cleaned, &backwards)
}

/// Whether `s` is a palindrome: the first half of its cleaned text is
/// compared with the second.
pub fn is_palindrome_optimized(s: &str) -> (r: bool)
    ensures
        r == is_palindrome(s@),
{
    let chars = clean(s);
    reads_both_ways(&chars)
}

/// Whether `s` is a palindrome: its cleaned text is walked from both ends
/// at once, all the way through.
pub fn is_palindrome_iterator(s: &str) -> (r: bool)
    ensures
        r == is_palindrome(s@),
{
    let chars = clean(s);
    let len = chars.len();
    let mut i: usize = 0;
    while i < len
        invariant
            i <= len,
            len == chars.len(),
            chars@ == cleaned(s@, s@.len() as int),
            forall|j: int| 0 <= j < i ==> #[trigger] chars[j] == chars[len - 1 - j],
        decreases len - i,
    {
        if chars[i] != chars[len - 1 - i] {
            proof {
                assert(chars@[i as int] != chars@[len - 1 - i]);
            }
            return false;
        }
        i += 1;
    }
    true
}

} // verus!
