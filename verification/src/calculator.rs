//! The tokens of arithmetic expressions: numbers, the four operators and
//! parentheses. What the numbers are worth, and what an expression
//! evaluates to, is left to the caller.

use vstd::prelude::*;
use crate::text::{char_is_digit, chars_of, is_digit, slice_of, text_of};

verus! {

/// A token of an expression. A number holds its literal: digits with at
/// most one point among them.
#[derive(Debug, Clone, PartialEq, Eq)]
pub enum Token {
    Number(String),
    Plus,
    Minus,
    Multiply,
    Divide,
    LeftParen,
    RightParen,
    End,
}

/// Why a text is no list of tokens.
#[derive(Debug, Clone, PartialEq, Eq)]
pub enum TokenError {
    /// A run of digits and points with no digit or with more than one
    /// point.
    InvalidNumber(String),
    /// A character that starts no token.
    UnexpectedCharacter(char),
}

/// A token, as characters.
pub ghost enum TokenView {
    Number(Seq<char>),
    Plus,
    Minus,
    Multiply,
    Divide,
    LeftParen,
    RightParen,
    End,
}

/// Why a text is no list of tokens, as characters.
pub ghost enum TokenFault {
    InvalidNumber(Seq<char>),
    UnexpectedCharacter(char),
}

impl View for Token {
    type V = TokenView;

    open spec fn view(&self) -> TokenView {
        match self {
            Token::Number(text) => TokenView::Number(text@),
            Token::Plus => TokenView::Plus,
            Token::Minus => TokenView::Minus,
            Token::Multiply => TokenView::Multiply,
            Token::Divide => TokenView::Divide,
            Token::LeftParen => TokenView::LeftParen,
            Token::RightParen => TokenView::RightParen,
            Token::End => TokenView::End,
        }
    }
}

impl View for TokenError {
    type V = TokenFault;

    open spec fn view(&self) -> TokenFault {
        match self {
            TokenError::InvalidNumber(text) => TokenFault::InvalidNumber(text@),
            TokenError::UnexpectedCharacter(c) => TokenFault::UnexpectedCharacter(*c),
        }
    }
}

/// The tokens as characters.
pub open spec fn token_views(tokens: Seq<Token>) -> Seq<TokenView> {
    Seq::new(tokens.len(), |i: int| tokens[i]@)
}

/// Whether `c` may stand in a number: a digit or a point.
pub open spec fn in_number(c: char) -> bool {
    is_digit(c) || c == '.'
}

/// The first position at or after `p` that holds neither digit nor point.
pub open spec fn number_end(s: Seq<char>, p: int) -> int
    decreases s.len() - p,
{
    if 0 <= p < s.len() && in_number(s[p]) {
        number_end(s, p + 1)
    } else {
        p
    }
}

/// The number of points from `from` up to `to`.
pub open spec fn points(s: Seq<char>, from: int, to: int) -> nat
    decreases to - from,
{
    if to <= from || from < 0 || to > s.len() {
        0
    } else {
        points(s, from, to - 1) + if s[to - 1] == '.' {
            1nat
        } else {
            0nat
        }
    }
}

/// Whether the run of digits and points from `from` up to `to` writes a
/// number: it holds a digit, and no more than one point.
pub open spec fn writes_number(s: Seq<char>, from: int, to: int) -> bool {
    points(s, from, to) <= 1 && points(s, from, to) < to - from
}

/// The token that a single character is, if it is one.
pub open spec fn sign_token(c: char) -> Option<TokenView> {
    if c == '+' {
        Some(TokenView::Plus)
    } else if c == '-' {
        Some(TokenView::Minus)
    } else if c == '*' {
        Some(TokenView::Multiply)
    } else if c == '/' {
        Some(TokenView::Divide)
    } else if c == '(' {
        Some(TokenView::LeftParen)
    } else if c == ')' {
        Some(TokenView::RightParen)
    } else {
        None
    }
}

/// `number_end` moves forward and stays within the text.
pub proof fn lemma_number_end(s: Seq<char>, p: int)
    requires
        0 <= p <= s.len(),
    ensures
        p <= number_end(s, p) <= s.len(),
        p < s.len() && in_number(s[p]) ==> p < number_end(s, p),
    decreases s.len() - p,
{
    if p < s.len() && in_number(s[p]) {
        lemma_number_end(s, p + 1);
    }
}

/// The tokens of `s` from `p` on, after the tokens `read`, with the end
/// token last. Spaces and tabs separate tokens; the first run of digits
/// and points that writes no number, or the first character that starts
/// no token, is the fault.
pub open spec fn tokens_from(s: Seq<char>, p: int, read: Seq<TokenView>) -> Result<
    Seq<TokenView>,
    TokenFault,
>
    decreases s.len() - p,
{
    if p < 0 || p >= s.len() {
        Ok(read.push(TokenView::End))
    } else if s[p] == ' ' || s[p] == '\t' {
        tokens_from(s, p + 1, read)
    } else if in_number(s[p]) {
        let end = number_end(s, p);
        if end <= p || end > s.len() {
            Err(TokenFault::UnexpectedCharacter(s[p]))
        } else if writes_number(s, p, end) {
            tokens_from(s, end, read.push(TokenView::Number(s.subrange(p, end))))
        } else {
            Err(TokenFault::InvalidNumber(s.subrange(p, end)))
        }
    } else {
        match sign_token(s[p]) {
            Some(token) => tokens_from(s, p + 1, read.push(token)),
            None => Err(TokenFault::UnexpectedCharacter(s[p])),
        }
    }
}

/// The token that `c` is, if it is one.
pub fn read_sign(c: char) -> (token: Option<Token>)
    ensures
        match token {
            Some(t) => sign_token(c) == Some(t@),
            None => sign_token(c) is None,
        },
{
    if c == '+' {
        Some(Token::Plus)
    } else if c == '-' {
        Some(Token::Minus)
    } else if c == '*' {
        Some(Token::Multiply)
    } else if c == '/' {
        Some(Token::Divide)
    } else if c == '(' {
        Some(Token::LeftParen)
    } else if c == ')' {
        Some(Token::RightParen)
    } else {
        None
    }
}

/// The tokens of `input`, with the end token last.
pub fn tokenize(input: &str) -> (r: Result<Vec<Token>, TokenError>)
    ensures
        match r {
            Ok(tokens) => tokens_from(input@, 0, Seq::empty()) == Ok::<Seq<TokenView>, TokenFault>(
                token_views(tokens@),
            ),
            Err(e) => tokens_from(input@, 0, Seq::empty()) == Err::<Seq<TokenView>, TokenFault>(
                e@,
            ),
        },
{
    let s = chars_of(input);
    let len = s.len();
    let mut tokens: Vec<Token> = Vec::new();
    let mut p: usize = 0;
    proof {
        assert(token_views(tokens@) =~= Seq::empty());
    }
    while p < len
        invariant
            p <= len,
            len == s.len(),
            s@ == input@,
            tokens_from(input@, 0, Seq::empty()) == tokens_from(
                s@,
                p as int,
                token_views(tokens@),
            ),
        decreases len - p,
    {
        let ch = s[p];
        let ghost before = token_views(tokens@);
        if ch == ' ' || ch == '\t' {
            p += 1;
        } else if char_is_digit(ch) || ch == '.' {
            let mut end: usize = p;
            let mut dots: usize = 0;
            while end < len && (char_is_digit(s[end]) || s[end] == '.')
                invariant
                    p <= end <= len,
                    len == s.len(),
                    number_end(s@, p as int) == number_end(s@, end as int),
                    dots == points(s@, p as int, end as int),
                    dots <= end - p,
                decreases len - end,
            {
                if s[end] == '.' {
                    dots += 1;
                }
                end += 1;
            }
            proof {
                lemma_number_end(s@, p as int);
            }
            let text = text_of(&slice_of(&s, p, end));
            if dots <= 1 && dots < end - p {
                tokens.push(Token::Number(text));
                proof {
                    assert(token_views(tokens@) =~= before.push(
                        TokenView::Number(s@.subrange(p as int, end as int)),
                    ));
                }
                p = end;
            } else {
                return Err(TokenError::InvalidNumber(text));
            }
        } else {
            match read_sign(ch) {
                Some(token) => {
                    proof {
                        assert(token_views(tokens@.push(token)) =~= before.push(token@));
                    }
                    tokens.push(token);
                    p += 1;
                },
                None => {
                    return Err(TokenError::UnexpectedCharacter(ch));
                },
            }
        }
    }
    proof {
        assert(token_views(tokens@.push(Token::End)) =~= token_views(tokens@).push(TokenView::End));
    }
    tokens.push(Token::End);
    Ok(tokens)
}

/// The tokens of an expression with a place in them.
pub struct Calculator {
    pub tokens: Vec<Token>,
    pub position: usize,
}

impl Calculator {
    /// The tokens of `input`, with the place at the first of them.
    pub fn new(input: &str) -> (r: Result<Calculator, TokenError>)
        ensures
            match r {
                Ok(calculator) => calculator.position == 0 && tokens_from(
                    input@,
                    0,
                    Seq::empty(),
                ) == Ok::<Seq<TokenView>, TokenFault>(token_views(calculator.tokens@)),
                Err(e) => tokens_from(input@, 0, Seq::empty()) == Err::<
                    Seq<TokenView>,
                    TokenFault,
                >(e@),
            },
    {
        match tokenize(input) {
            Ok(tokens) => Ok(Calculator { tokens, position: 0 }),
            Err(e) => Err(e),
        }
    }

    /// The token at the place; the end token where the place is beyond the
    /// tokens.
    pub fn current_token(&self) -> (token: &Token)
        ensures
            token@ == if self.position < self.tokens.len() {
                self.tokens[self.position as int]@
            } else {
                TokenView::End
            },
    {
        if self.position < self.tokens.len() {
            &self.tokens[self.position]
        } else {
            &Token::End
        }
    }

    /// Moves the place one token on, unless it stands at the last token or
    /// beyond.
    pub fn advance(&mut self)
        ensures
            final(self).tokens == old(self).tokens,
            final(self).position == if old(self).position + 1 < old(self).tokens.len() {
                old(self).position + 1
            } else {
                old(self).position as int
            },
    {
        if self.tokens.len() > 0 && self.position < self.tokens.len() - 1 {
            self.position += 1;
        }
    }
}

} // verus!
