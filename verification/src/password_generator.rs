//! Passwords drawn at random from a set of characters, and the size of the
//! set that a given password draws on.

use vstd::prelude::*;
use vstd::string::StringExecFns;
use rand::Rng;
use crate::text::{alphanumeric, char_is_alphanumeric, chars_of, text_of};

verus! {

/// What a password is made of.
pub struct PasswordConfig {
    pub length: usize,
    pub include_lowercase: bool,
    pub include_uppercase: bool,
    pub include_numbers: bool,
    pub include_symbols: bool,
    pub exclude_ambiguous: bool,
}

impl Default for PasswordConfig {
    /// Twelve characters: letters of both cases and digits.
    fn default() -> (config: PasswordConfig)
        ensures
            config.length == 12,
            config.include_lowercase,
            config.include_uppercase,
            config.include_numbers,
            !config.include_symbols,
            !config.exclude_ambiguous,
    {
        PasswordConfig {
            length: 12,
            include_lowercase: true,
            include_uppercase: true,
            include_numbers: true,
            include_symbols: false,
            exclude_ambiguous: false,
        }
    }
}

/// The classes of characters that passwords are drawn from.
pub struct PasswordGenerator {
    pub lowercase: String,
    pub uppercase: String,
    pub numbers: String,
    pub symbols: String,
    pub ambiguous: String,
}

/// Why no password could be made.
#[derive(Debug, Clone, Copy, PartialEq, Eq, Structural)]
pub enum PasswordError {
    /// The configuration leaves no character to draw from.
    NoCharacterTypes,
}

/// The characters among the first `upto` of `s` that do not stand in
/// `left_out`.
pub open spec fn without(s: Seq<char>, left_out: Seq<char>, upto: int) -> Seq<char>
    decreases upto,
{
    if upto <= 0 || upto > s.len() {
        Seq::empty()
    } else if left_out.contains(s[upto - 1]) {
        without(s, left_out, upto - 1)
    } else {
        without(s, left_out, upto - 1).push(s[upto - 1])
    }
}

/// `class` where it is asked for, nothing where it is not.
pub open spec fn part(wanted: bool, class: Seq<char>) -> Seq<char> {
    if wanted {
        class
    } else {
        Seq::empty()
    }
}

/// The characters that a configuration draws from: the classes it asks
/// for, one after the other, without the ambiguous characters where it
/// asks for that.
pub open spec fn charset(generator: PasswordGenerator, config: PasswordConfig) -> Seq<char> {
    let all = part(config.include_lowercase, generator.lowercase@) + part(
        config.include_uppercase,
        generator.uppercase@,
    ) + part(config.include_numbers, generator.numbers@) + part(
        config.include_symbols,
        generator.symbols@,
    );
    if config.exclude_ambiguous {
        without(all, generator.ambiguous@, all.len() as int)
    } else {
        all
    }
}

/// A number below `bound`, drawn by `Rng::gen_range` from the generator of
/// the thread. Which number it is, nothing says.
#[verifier::external_body]
fn random_index(bound: usize) -> (index: usize)
    requires
        bound > 0,
    ensures
        index < bound,
{
    rand::thread_rng().gen_range(0..bound)
}

/// Whether `c` stands in `s`.
pub fn contains_char(s: &Vec<char>, c: char) -> (found: bool)
    ensures
        found == s@.contains(c),
{
    let mut i: usize = 0;
    while i < s.len()
        invariant
            i <= s.len(),
            forall|j: int| 0 <= j < i ==> s[j] != c,
        decreases s.len() - i,
    {
        if s[i] == c {
            return true;
        }
        i += 1;
    }
    false
}

/// The password that takes, for each index of `indices`, the character of
/// `charset` at that index.
pub fn password_from(charset: &Vec<char>, indices: &Vec<usize>) -> (password: String)
    requires
        forall|i: int| 0 <= i < indices.len() ==> (#[trigger] indices[i]) < charset.len(),
    ensures
        password@.len() == indices.len(),
        forall|i: int| 0 <= i < indices.len() ==> password@[i] == charset[indices[i] as int],
{
    let mut chars: Vec<char> = Vec::new();
    let mut i: usize = 0;
    while i < indices.len()
        invariant
            i <= indices.len(),
            chars.len() == i,
            forall|j: int| 0 <= j < indices.len() ==> (#[trigger] indices[j]) < charset.len(),
            forall|j: int| 0 <= j < i ==> chars[j] == charset[indices[j] as int],
        decreases indices.len() - i,
    {
        chars.push(charset[indices[i]]);
        i += 1;
    }
    text_of(&chars)
}

impl PasswordGenerator {
    /// The usual classes: the letters of both cases, the digits, the
    /// symbols, and the characters that are easily taken for one another.
    pub fn new() -> (generator: PasswordGenerator)
        ensures
            generator.lowercase@ == "abcdefghijklmnopqrstuvwxyz"@,
            generator.uppercase@ == "ABCDEFGHIJKLMNOPQRSTUVWXYZ"@,
            generator.numbers@ == "0123456789"@,
            generator.symbols@ == "!@#$%^&*()_+-=[]{}|;:,.<>?"@,
            generator.ambiguous@ == "0O1lI"@,
    {
        PasswordGenerator {
            lowercase: "abcdefghijklmnopqrstuvwxyz".to_owned(),
            uppercase: "ABCDEFGHIJKLMNOPQRSTUVWXYZ".to_owned(),
            numbers: "0123456789".to_owned(),
            symbols: "!@#$%^&*()_+-=[]{}|;:,.<>?".to_owned(),
            ambiguous: "0O1lI".to_owned(),
        }
    }

    /// The characters that `config` draws from.
    pub fn build_charset(&self, config: &PasswordConfig) -> (set: String)
        ensures
            set@ == charset(*self, *config),
    {
        let mut all = String::new();
        if config.include_lowercase {
            all.append(self.lowercase.as_str());
        }
        if config.include_uppercase {
            all.append(self.uppercase.as_str());
        }
        if config.include_numbers {
            all.append(self.numbers.as_str());
        }
        if config.include_symbols {
            all.append(self.symbols.as_str());
        }
        proof {
            assert(all@ =~= part(config.include_lowercase, self.lowercase@) + part(
                config.include_uppercase,
                self.uppercase@,
            ) + part(config.include_numbers, self.numbers@) + part(
                config.include_symbols,
                self.symbols@,
            ));
        }
        if config.exclude_ambiguous {
            let chars = chars_of(all.as_str());
            let ambiguous = chars_of(self.ambiguous.as_str());
            let mut kept: Vec<char> = Vec::new();
            let mut i: usize = 0;
            while i < chars.len()
                invariant
                    i <= chars.len(),
                    kept@ == without(chars@, ambiguous@, i as int),
                decreases chars.len() - i,
            {
                if !contains_char(&ambiguous, chars[i]) {
                    kept.push(chars[i]);
                }
                i += 1;
            }
            text_of(&kept)
        } else {
            all
        }
    }

    /// A password of the length that `config` asks for, each character
    /// drawn at random from the characters that `config` draws from. It
    /// fails exactly where there is no character to draw from.
    pub fn generate_password(&self, config: &PasswordConfig) -> (r: Result<String, PasswordError>)
        ensures
            match r {
                Ok(password) => {
                    &&& charset(*self, *config).len() > 0
                    &&& password@.len() == config.length
                    &&& forall|i: int|
                        0 <= i < password@.len() ==> charset(*self, *config).contains(
                            #[trigger] password@[i],
                        )
                },
                Err(e) => e == PasswordError::NoCharacterTypes && charset(*self, *config).len()
                    == 0,
            },
    {
        let set = self.build_charset(config);
        let charset_chars = chars_of(set.as_str());
        if charset_chars.len() == 0 {
            return Err(PasswordError::NoCharacterTypes);
        }
        let mut indices: Vec<usize> = Vec::new();
        let mut i: usize = 0;
        while i < config.length
            invariant
                i <= config.length,
                indices.len() == i,
                charset_chars.len() > 0,
                forall|j: int| 0 <= j < i ==> (#[trigger] indices[j]) < charset_chars.len(),
            decreases config.length - i,
        {
            indices.push(random_index(charset_chars.len()));
            i += 1;
        }
        let password = password_from(&charset_chars, &indices);
        proof {
            assert forall|k: int| 0 <= k < password@.len() implies charset(
                *self,
                *config,
            ).contains(#[trigger] password@[k]) by {
                assert(password@[k] == charset_chars@[indices[k] as int]);
            }
        }
        Ok(password)
    }

    /// The size of the set of characters that `password` draws on: 26 for
    /// small ASCII letters, 26 for ASCII capitals, 10 for ASCII digits and
    /// 32 for characters that are neither letters nor digits, each counted
    /// where the password holds one of them.
    pub fn charset_size(&self, password: &str) -> (size: u32)
        ensures
            size == class_size(password@, password@.len() as int),
    {
        let chars = chars_of(password);
        let mut has_lower = false;
        let mut has_upper = false;
        let mut has_digit = false;
        let mut has_symbol = false;
        let mut i: usize = 0;
        while i < chars.len()
            invariant
                i <= chars.len(),
                chars@ == password@,
                has_lower == has_class(password@, i as int, 0),
                has_upper == has_class(password@, i as int, 1),
                has_digit == has_class(password@, i as int, 2),
                has_symbol == has_class(password@, i as int, 3),
            decreases chars.len() - i,
        {
            let ch = chars[i];
            let alnum = char_is_alphanumeric(ch);
            if ch >= 'a' && ch <= 'z' && !has_lower {
                has_lower = true;
            } else if ch >= 'A' && ch <= 'Z' && !has_upper {
                has_upper = true;
            } else if ch >= '0' && ch <= '9' && !has_digit {
                has_digit = true;
            } else if !alnum && !has_symbol {
                has_symbol = true;
            }
            i += 1;
        }
        let mut size: u32 = 0;
        if has_lower {
            size += 26;
        }
        if has_upper {
            size += 26;
        }
        if has_digit {
            size += 10;
        }
        if has_symbol {
            size += 32;
        }
        size
    }
}

/// The class of a character: 0 for a small ASCII letter, 1 for an ASCII
/// capital, 2 for an ASCII digit, 3 for what is neither a letter nor a
/// digit, 4 for any other.
pub open spec fn class_of(c: char) -> int {
    if 'a' <= c <= 'z' {
        0
    } else if 'A' <= c <= 'Z' {
        1
    } else if '0' <= c <= '9' {
        2
    } else if !alphanumeric(c) {
        3
    } else {
        4
    }
}

/// Whether one of the first `upto` characters of `s` is of the class
/// `class`.
pub open spec fn has_class(s: Seq<char>, upto: int, class: int) -> bool
    decreases upto,
{
    if upto <= 0 || upto > s.len() {
        false
    } else {
        class_of(s[upto - 1]) == class || has_class(s, upto - 1, class)
    }
}

/// The size of the set of characters that the first `upto` characters of
/// `s` draw on.
pub open spec fn class_size(s: Seq<char>, upto: int) -> int {
    (if has_class(s, upto, 0) {
        26int
    } else {
        0
    }) + (if has_class(s, upto, 1) {
        26int
    } else {
        0
    }) + (if has_class(s, upto, 2) {
        10int
    } else {
        0
    }) + (if has_class(s, upto, 3) {
        32int
    } else {
        0
    })
}

} // verus!
