//! Splitting a line of characters into tokens.
use vstd::prelude::*;
use crate::int32::{wrap_i32, lemma_wrap_decimal_step, lemma_wrap_in_range};
use crate::text::{decimal_digits, digit_char};

verus! {

/// One lexical unit of the input.
#[derive(Debug, Clone, Copy, PartialEq, Eq, Structural)]
pub enum Token {
    /// A character that starts no token.
    Unknown(char),
    Space,
    Plus,
    Minus,
    Asterisk,
    Slash,
    /// A run of decimal digits, reduced to `i32` by wrapping.
    Number(i32),
}

pub open spec fn is_digit(c: char) -> bool {
    '0' <= c && c <= '9'
}

pub open spec fn digit_value(c: char) -> int {
    c as int - '0' as int
}

/// The number that a string of decimal digits denotes.
pub open spec fn decimal_value(ds: Seq<char>) -> int
    decreases ds.len(),
{
    if ds.len() == 0 {
        0
    } else {
        decimal_value(ds.drop_last()) * 10 + digit_value(ds.last())
    }
}

/// Index just past the run of digits that begins at `i`.
pub open spec fn digits_end(s: Seq<char>, i: int) -> int
    decreases s.len() - i,
{
    if 0 <= i < s.len() && is_digit(s[i]) {
        digits_end(s, i + 1)
    } else {
        i
    }
}

/// The token that a single character other than a digit stands for.
pub open spec fn symbol_token(c: char) -> Token {
    if c == ' ' {
        Token::Space
    } else if c == '+' {
        Token::Plus
    } else if c == '-' {
        Token::Minus
    } else if c == '*' {
        Token::Asterisk
    } else if c == '/' {
        Token::Slash
    } else {
        Token::Unknown(c)
    }
}

/// The token that starts at index `i` of `s`, with the index just past it;
/// `None` once `i` has reached the end.
pub open spec fn next_token(s: Seq<char>, i: int) -> Option<(Token, int)> {
    if i < 0 || i >= s.len() {
        None
    } else if is_digit(s[i]) {
        let e = digits_end(s, i);
        Some((Token::Number(wrap_i32(decimal_value(s.subrange(i, e)))), e))
    } else {
        Some((symbol_token(s[i]), i + 1))
    }
}

/// A run of digits ends after it starts, and within the input.
pub proof fn lemma_digits_end_bounds(s: Seq<char>, i: int)
    requires
        0 <= i <= s.len(),
    ensures
        i <= digits_end(s, i) <= s.len(),
        digits_end(s, i) < s.len() ==> !is_digit(s[digits_end(s, i)]),
        forall|k: int| i <= k < digits_end(s, i) ==> is_digit(#[trigger] s[k]),
    decreases s.len() - i,
{
    if i < s.len() && is_digit(s[i]) {
        lemma_digits_end_bounds(s, i + 1);
    }
}

/// Each token consumes at least one character and stays within the input.
pub proof fn lemma_next_token_advances(s: Seq<char>, i: int)
    requires
        0 <= i < s.len(),
    ensures
        next_token(s, i) matches Some((_, j)) && i < j <= s.len(),
{
    lemma_digits_end_bounds(s, i);
}

/// The tokens of `s` from index `i` on, in order.
pub open spec fn tokens_from(s: Seq<char>, i: int) -> Seq<Token>
    decreases s.len() - i,
{
    if 0 <= i < s.len() {
        proof {
            lemma_next_token_advances(s, i);
        }
        let (t, j) = next_token(s, i)->Some_0;
        seq![t] + tokens_from(s, j)
    } else {
        seq![]
    }
}

/// A run of digits from `i` that stops at the end or before a non-digit
/// ends exactly there.
pub proof fn lemma_digits_end_at(s: Seq<char>, i: int, e: int)
    requires
        0 <= i <= e <= s.len(),
        forall|k: int| i <= k < e ==> is_digit(#[trigger] s[k]),
        e == s.len() || !is_digit(s[e]),
    ensures
        digits_end(s, i) == e,
    decreases e - i,
{
    if i < e {
        lemma_digits_end_at(s, i + 1, e);
    }
}

/// Past an inserted space, lexing proceeds as on the original characters,
/// shifted by one.
pub proof fn lemma_tokens_shift(s: Seq<char>, i: int, q: int)
    requires
        0 <= i <= q <= s.len(),
    ensures
        tokens_from(s.insert(i, ' '), q + 1) == tokens_from(s, q),
    decreases s.len() - q,
{
    let t = s.insert(i, ' ');
    s.insert_ensures(i, ' ');
    if q < s.len() {
        assert(t[q + 1] == s[q]);
        if is_digit(s[q]) {
            let e = digits_end(s, q);
            lemma_digits_end_bounds(s, q);
            assert forall|k: int| q + 1 <= k < e + 1 implies is_digit(#[trigger] t[k]) by {
                assert(t[k] == s[k - 1]);
            }
            if e < s.len() {
                assert(t[e + 1] == s[e]);
            }
            lemma_digits_end_at(t, q + 1, e + 1);
            assert(t.subrange(q + 1, e + 1) =~= s.subrange(q, e));
        }
        lemma_next_token_advances(s, q);
        let j = next_token(s, q)->Some_0.1;
        lemma_tokens_shift(s, i, j);
    }
}

/// Inserting a space where it does not split a run of digits adds one
/// space token and leaves the others as they were.
pub proof fn lemma_tokens_space_insert(s: Seq<char>, i: int, p: int) -> (k: int)
    requires
        0 <= p <= i <= s.len(),
        !(0 < i < s.len() && is_digit(s[i - 1]) && is_digit(s[i])),
    ensures
        0 <= k <= tokens_from(s, p).len(),
        tokens_from(s.insert(i, ' '), p) == tokens_from(s, p).insert(k, Token::Space),
    decreases i - p,
{
    let t = s.insert(i, ' ');
    s.insert_ensures(i, ' ');
    if p == i {
        lemma_tokens_shift(s, i, i);
        assert(tokens_from(t, p) =~= tokens_from(s, p).insert(0, Token::Space));
        0
    } else {
        assert(t[p] == s[p]);
        lemma_next_token_advances(s, p);
        lemma_digits_end_bounds(s, p);
        if is_digit(s[p]) {
            let e = digits_end(s, p);
            if e > i {
                assert(is_digit(s[i - 1]) && is_digit(s[i]));
            }
            assert forall|k: int| p <= k < e implies is_digit(#[trigger] t[k]) by {
                assert(t[k] == s[k]);
            }
            if e < i {
                assert(t[e] == s[e]);
            }
            lemma_digits_end_at(t, p, e);
            assert(t.subrange(p, e) =~= s.subrange(p, e));
        }
        let j = next_token(s, p)->Some_0.1;
        let k = lemma_tokens_space_insert(s, i, j);
        assert(tokens_from(t, p) =~= tokens_from(s, p).insert(k + 1, Token::Space));
        k + 1
    }
}

/// The numeral of `n` consists of digits and reads back as `n`.
pub proof fn lemma_decimal_digits_read_back(n: nat)
    ensures
        decimal_digits(n).len() >= 1,
        forall|k: int| 0 <= k < decimal_digits(n).len() ==> is_digit(#[trigger] decimal_digits(n)[k]),
        decimal_value(decimal_digits(n)) == n,
    decreases n,
{
    let d = (n % 10) as int;
    assert(is_digit(digit_char(d)) && digit_value(digit_char(d)) == d);
    if n >= 10 {
        lemma_decimal_digits_read_back(n / 10);
        let ds = decimal_digits(n);
        assert(ds.drop_last() =~= decimal_digits(n / 10));
        assert(ds.last() == digit_char(d));
        vstd::arithmetic::div_mod::lemma_fundamental_div_mod(n as int, 10);
        assert(decimal_value(ds) == (n / 10) * 10 + d);
    } else {
        let ds = decimal_digits(n);
        assert(ds.drop_last() =~= Seq::<char>::empty());
        assert(ds.last() == digit_char(d));
        assert(decimal_value(ds) == decimal_value(ds.drop_last()) * 10 + d);
    }
}

/// A numeral at index `i` that is not followed by a digit lexes as one
/// number token with its (wrapped) value.
pub proof fn lemma_next_token_numeral(s: Seq<char>, i: int, n: nat)
    requires
        0 <= i,
        i + decimal_digits(n).len() <= s.len(),
        s.subrange(i, i + decimal_digits(n).len()) == decimal_digits(n),
        i + decimal_digits(n).len() == s.len() || !is_digit(s[i + decimal_digits(n).len()]),
    ensures
        next_token(s, i) == Some((Token::Number(wrap_i32(n as int)), i + decimal_digits(n).len())),
{
    let ds = decimal_digits(n);
    let e = i + ds.len();
    lemma_decimal_digits_read_back(n);
    assert forall|k: int| i <= k < e implies is_digit(#[trigger] s[k]) by {
        assert(s[k] == s.subrange(i, e)[k - i]);
    }
    assert(s[i] == ds[0]);
    lemma_digits_end_at(s, i, e);
}

/// All tokens of `s`.
pub open spec fn tokens(s: Seq<char>) -> Seq<Token> {
    tokens_from(s, 0)
}

/// Reads tokens one at a time from a sequence of characters.
pub struct Lexer {
    characters: Vec<char>,
    position: usize,
}

impl Lexer {
    /// The characters being read.
    pub closed spec fn input(&self) -> Seq<char> {
        self.characters@
    }

    /// Index of the next character to read.
    pub closed spec fn position(&self) -> int {
        self.position as int
    }

    /// The cursor lies within the input or just past its end.
    pub open spec fn wf(&self) -> bool {
        0 <= self.position() <= self.input().len()
    }

    pub fn new(characters: Vec<char>) -> (r: Lexer)
        ensures
            r.wf(),
            r.input() == characters@,
            r.position() == 0,
    {
        Lexer { characters, position: 0 }
    }

    /// Returns the next token and moves past it, or `None` at the end of
    /// the input.
    pub fn read_token(&mut self) -> (r: Option<Token>)
        requires
            old(self).wf(),
        ensures
            final(self).wf(),
            final(self).input() == old(self).input(),
            match next_token(old(self).input(), old(self).position()) {
                None => r is None && final(self).position() == old(self).position(),
                Some((t, j)) => r == Some(t) && final(self).position() == j,
            },
    {
        let character = match self.peek() {
            Some(c) => c,
            None => {
                return None;
            },
        };
        if is_ascii_digit(character) {
            return Some(Token::Number(self.read_number()));
        }
        let token = match character {
            ' ' => Token::Space,
            '+' => Token::Plus,
            '-' => Token::Minus,
            '*' => Token::Asterisk,
            '/' => Token::Slash,
            _ => Token::Unknown(character),
        };
        self.advance();
        Some(token)
    }

    /// Reads the run of digits at the current position, with wrapping
    /// arithmetic.
    /// Without a digit at the cursor the run is empty: the result is 0 and
    /// the cursor stays.
    fn read_number(&mut self) -> (r: i32)
        requires
            old(self).wf(),
        ensures
            final(self).wf(),
            final(self).input() == old(self).input(),
            final(self).position() == digits_end(old(self).input(), old(self).position()),
            r == wrap_i32(
                decimal_value(
                    old(self).input().subrange(
                        old(self).position(),
                        digits_end(old(self).input(), old(self).position()),
                    ),
                ),
            ),
    {
        let ghost s = self.input();
        let ghost start = self.position();
        proof {
            lemma_digits_end_bounds(s, start);
            assert(s.subrange(start, start) =~= Seq::<char>::empty());
            lemma_wrap_in_range(0);
        }
        let mut number: i32 = 0;
        loop
            invariant
                self.wf(),
                self.input() == s,
                start <= self.position() <= digits_end(s, start),
                number == wrap_i32(decimal_value(s.subrange(start, self.position()))),
            ensures
                self.wf(),
                self.input() == s,
                self.position() == digits_end(s, start),
                number == wrap_i32(decimal_value(s.subrange(start, self.position()))),
            decreases s.len() - self.position(),
        {
            proof {
                lemma_digits_end_bounds(s, start);
            }
            let character = match self.peek() {
                Some(c) => c,
                None => {
                    break;
                },
            };
            if !is_ascii_digit(character) {
                break;
            }
            let ghost p = self.position();
            assert(s[p] == character);
            proof {
                let prefix = s.subrange(start, p + 1);
                assert(prefix.drop_last() =~= s.subrange(start, p));
                assert(prefix.last() == character);
                lemma_wrap_decimal_step(
                    decimal_value(s.subrange(start, p)),
                    digit_value(character),
                );
            }
            number = number.wrapping_mul(10).wrapping_add(digit_of(character));
            self.advance();
        }
        number
    }

    fn peek(&self) -> (r: Option<char>)
        ensures
            self.position() < self.input().len() ==> r == Some(self.input()[self.position()]),
            self.position() >= self.input().len() ==> r is None,
            self.input().len() <= usize::MAX,
    {
        if self.position < self.characters.len() {
            Some(self.characters[self.position])
        } else {
            None
        }
    }

    fn advance(&mut self)
        requires
            old(self).position() < usize::MAX,
        ensures
            old(self).position() < old(self).input().len() ==> final(self).wf(),
            final(self).input() == old(self).input(),
            final(self).position() == old(self).position() + 1,
    {
        self.position = self.position + 1;
    }
}

fn is_ascii_digit(c: char) -> (r: bool)
    ensures
        r == is_digit(c),
{
    '0' <= c && c <= '9'
}

fn digit_of(c: char) -> (r: i32)
    requires
        is_digit(c),
    ensures
        r == digit_value(c),
{
    (c as u32 - '0' as u32) as i32
}

} // verus!
