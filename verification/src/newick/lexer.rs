//! A lexer for tokenizing Newick format strings.
//!
//! The [`Lexer`] takes an input string and produces a stream of tokens
//! representing the syntactic elements of the Newick format, such as
//! parentheses, semicolons, and numbers. It supports optional whitespace
//! skipping and reports unexpected characters as [`LexerError`] values.
//!
//! The token stream a lexer produces is pinned down, one step at a time, by
//! [`spec_lex_step`].

use vstd::arithmetic::div_mod::{lemma_add_mod_noop, lemma_mul_mod_noop_left};
use vstd::prelude::*;

verus! {

#[derive(Debug, PartialEq, Eq, Structural, Clone, Copy)]
pub enum TokenType {
    ParOpen,
    ParClose,
    Comma,
    Semicolon,
    Number(u32),
}

#[derive(Debug, PartialEq, Eq, Structural, Clone, Copy)]
pub struct Token {
    pub offset: usize,
    pub token_type: TokenType,
}

#[derive(Debug, PartialEq, Eq, Clone, Copy)]
pub enum LexerError {
    UnexpectedChar { character: char, offset: usize },
}

/// True iff `c` is an ASCII decimal digit.
pub open spec fn is_digit_char(c: char) -> bool {
    48 <= c as u32 && c as u32 <= 57
}

/// Numeric value of an ASCII decimal digit.
pub open spec fn digit_value(c: char) -> int {
    c as u32 - 48
}

/// True iff `c` is a whitespace character: exactly the code points of the
/// Unicode White_Space property, the set `char::is_whitespace` accepts.
pub open spec fn is_space_char(c: char) -> bool {
    let v = c as u32;
    (0x09 <= v && v <= 0x0D) || v == 0x20 || v == 0x85 || v == 0xA0 || v == 0x1680 || (0x2000 <= v
        && v <= 0x200A) || v == 0x2028 || v == 0x2029 || v == 0x202F || v == 0x205F || v == 0x3000
}

/// End of the maximal run of digits of `s` that starts at `i`.
pub open spec fn digit_run_end(s: Seq<char>, i: int) -> int
    decreases s.len() - i,
{
    if 0 <= i < s.len() && is_digit_char(s[i]) {
        digit_run_end(s, i + 1)
    } else {
        i
    }
}

/// Value of a sequence of decimal digits, most significant first.
pub open spec fn digits_value(s: Seq<char>) -> int
    decreases s.len(),
{
    if s.len() == 0 {
        0
    } else {
        digits_value(s.drop_last()) * 10 + digit_value(s.last())
    }
}

/// Reduction modulo 2^32: numeric literals beyond the 32-bit range wrap, a
/// deliberate decision where the format leaves the behaviour open.
pub open spec fn wrap32(v: int) -> int {
    v % 0x1_0000_0000
}

/// One step of the lexer on `s` at position `pos`: the token found there and
/// the position after it, the end of the input, or an unexpected character.
pub enum LexStep {
    End,
    Tok { kind: TokenType, offset: int, next: int },
    Bad { character: char, offset: int, next: int },
}

/// What one call of [`Lexer::next`] finds at position `pos` of `s`: a maximal
/// digit run becomes one number token (wrapping modulo 2^32), the four
/// structural characters become their tokens, whitespace is skipped only in
/// whitespace mode, and any other character is an error.
pub open spec fn spec_lex_step(s: Seq<char>, pos: int, ws: bool) -> LexStep
    decreases s.len() - pos,
{
    if pos < 0 || pos >= s.len() {
        LexStep::End
    } else {
        let c = s[pos];
        if is_digit_char(c) {
            let e = digit_run_end(s, pos);
            LexStep::Tok {
                kind: TokenType::Number(wrap32(digits_value(s.subrange(pos, e))) as u32),
                offset: pos,
                next: e,
            }
        } else if c == '(' {
            LexStep::Tok { kind: TokenType::ParOpen, offset: pos, next: pos + 1 }
        } else if c == ')' {
            LexStep::Tok { kind: TokenType::ParClose, offset: pos, next: pos + 1 }
        } else if c == ',' {
            LexStep::Tok { kind: TokenType::Comma, offset: pos, next: pos + 1 }
        } else if c == ';' {
            LexStep::Tok { kind: TokenType::Semicolon, offset: pos, next: pos + 1 }
        } else if ws && is_space_char(c) {
            spec_lex_step(s, pos + 1, ws)
        } else {
            LexStep::Bad { character: c, offset: pos, next: pos + 1 }
        }
    }
}

/// The digit run starting at `i` ends within the string, consists of digits
/// only, and is maximal.
pub proof fn lemma_digit_run_end_bounds(s: Seq<char>, i: int)
    requires
        0 <= i <= s.len(),
    ensures
        i <= digit_run_end(s, i) <= s.len(),
        forall|j: int| i <= j < digit_run_end(s, i) ==> is_digit_char(s[j]),
        digit_run_end(s, i) < s.len() ==> !is_digit_char(s[digit_run_end(s, i)]),
    decreases s.len() - i,
{
    if i < s.len() && is_digit_char(s[i]) {
        lemma_digit_run_end_bounds(s, i + 1);
    }
}

/// A lexer step stays within the string and makes progress.
pub proof fn lemma_lex_step_bounds(s: Seq<char>, pos: int, ws: bool)
    requires
        0 <= pos <= s.len(),
    ensures
        match spec_lex_step(s, pos, ws) {
            LexStep::End => true,
            LexStep::Tok { offset, next, .. } => pos <= offset < next <= s.len(),
            LexStep::Bad { offset, next, .. } => pos <= offset < next <= s.len() && next == offset
                + 1,
        },
    decreases s.len() - pos,
{
    if pos < s.len() {
        let c = s[pos];
        if is_digit_char(c) {
            lemma_digit_run_end_bounds(s, pos);
        } else if ws && is_space_char(c) && !(c == '(' || c == ')' || c == ',' || c == ';') {
            lemma_lex_step_bounds(s, pos + 1, ws);
        }
    }
}

/// Wrapping after every accumulation step equals wrapping once at the end.
proof fn lemma_wrap32_step(a: int, d: int)
    ensures
        wrap32(wrap32(a) * 10 + d) == wrap32(a * 10 + d),
{
    let m = 0x1_0000_0000int;
    lemma_mul_mod_noop_left(a, 10, m);
    lemma_add_mod_noop(a % m * 10, d, m);
    lemma_add_mod_noop(a * 10, d, m);
}

pub(crate) fn exec_is_digit(c: char) -> (r: bool)
    ensures
        r == is_digit_char(c),
{
    let v = c as u32;
    48 <= v && v <= 57
}

pub(crate) fn exec_is_space(c: char) -> (r: bool)
    ensures
        r == is_space_char(c),
{
    let v = c as u32;
    (0x09 <= v && v <= 0x0D) || v == 0x20 || v == 0x85 || v == 0xA0 || v == 0x1680 || (0x2000 <= v
        && v <= 0x200A) || v == 0x2028 || v == 0x2029 || v == 0x202F || v == 0x205F || v == 0x3000
}

/// Streaming tokenizer over a Newick string.
pub struct Lexer<'a> {
    text: &'a str,
    pos: usize,
    allow_whitespace: bool,
}

impl<'a> Lexer<'a> {
    /// The characters of the input handed to [`Lexer::new`].
    pub closed spec fn chars(&self) -> Seq<char> {
        self.text@
    }

    /// The position of the next character the lexer will look at.
    pub closed spec fn position(&self) -> int {
        self.pos as int
    }

    /// True iff whitespace between tokens is skipped instead of rejected.
    pub closed spec fn whitespace_mode(&self) -> bool {
        self.allow_whitespace
    }

    pub open spec fn wf(&self) -> bool {
        0 <= self.position() <= self.chars().len()
    }

    /// A strict lexer over `input`: whitespace is not allowed.
    pub fn new(input: &'a str) -> (l: Self)
        ensures
            l.wf(),
            l.chars() == input@,
            l.position() == 0,
            !l.whitespace_mode(),
    {
        Self { text: input, pos: 0, allow_whitespace: false }
    }

    /// Switches the lexer to whitespace-skipping mode.
    pub fn allow_whitespaces(&mut self)
        ensures
            final(self).chars() == old(self).chars(),
            final(self).position() == old(self).position(),
            final(self).whitespace_mode(),
            final(self).wf() == old(self).wf(),
    {
        self.allow_whitespace = true;
    }

    /// Consumes the maximal digit run at the current position, if the input
    /// continues with a digit, and returns its offset and its value modulo
    /// 2^32.
    fn try_parse_number(&mut self) -> (r: Option<(usize, u32)>)
        requires
            old(self).wf(),
        ensures
            final(self).wf(),
            final(self).chars() == old(self).chars(),
            final(self).whitespace_mode() == old(self).whitespace_mode(),
            ({
                let s = old(self).chars();
                let p = old(self).position();
                if p < s.len() && is_digit_char(s[p]) {
                    let e = digit_run_end(s, p);
                    r == Some((p as usize, wrap32(digits_value(s.subrange(p, e))) as u32))
                        && final(self).position() == e
                } else {
                    r is None && final(self).position() == p
                }
            }),
    {
        let ghost s = self.text@;
        let ghost start = self.pos as int;
        let ghost e = digit_run_end(s, start);
        proof {
            lemma_digit_run_end_bounds(s, start);
        }
        let len = self.text.unicode_len();
        if self.pos >= len {
            return None;
        }
        if !exec_is_digit(self.text.get_char(self.pos)) {
            return None;
        }
        let offset = self.pos;
        let mut number: u32 = 0;
        loop
            invariant
                self.wf(),
                s == self.text@,
                len == s.len(),
                e == digit_run_end(s, start),
                start == offset as int,
                start <= self.pos as int <= e <= s.len(),
                forall|j: int| start <= j < e ==> is_digit_char(s[j]),
                e < s.len() ==> !is_digit_char(s[e]),
                number == wrap32(digits_value(s.subrange(start, self.pos as int))),
                self.allow_whitespace == old(self).allow_whitespace,
            ensures
                self.wf(),
                s == self.text@,
                self.allow_whitespace == old(self).allow_whitespace,
                self.pos as int == e,
                number == wrap32(digits_value(s.subrange(start, e))),
            decreases s.len() - self.pos,
        {
            if self.pos >= len {
                break ;
            }
            let c = self.text.get_char(self.pos);
            if !exec_is_digit(c) {
                break ;
            }
            let d = (c as u32) - 48;
            let wide: u64 = (number as u64) * 10 + (d as u64);
            let next_number = (wide % 0x1_0000_0000) as u32;
            proof {
                let prefix = s.subrange(start, self.pos as int);
                let extended = s.subrange(start, self.pos + 1);
                assert(extended.drop_last() =~= prefix);
                assert(extended.last() == c);
                lemma_wrap32_step(digits_value(prefix), digit_value(c));
            }
            number = next_number;
            self.pos = self.pos + 1;
        }
        proof {
            // the loop stopped at the end of the maximal digit run
            assert(self.pos as int == e);
        }
        Some((offset, number))
    }

    /// Produces the next token of the input, `None` at its end, or the first
    /// unexpected character; exactly [`spec_lex_step`] at the current
    /// position.
    pub fn next(&mut self) -> (r: Option<Result<Token, LexerError>>)
        requires
            old(self).wf(),
        ensures
            final(self).wf(),
            final(self).chars() == old(self).chars(),
            final(self).whitespace_mode() == old(self).whitespace_mode(),
            match spec_lex_step(old(self).chars(), old(self).position(), old(self).whitespace_mode()) {
                LexStep::End => r is None && final(self).position() == old(self).chars().len(),
                LexStep::Tok { kind, offset, next } => r == Some(
                    Ok::<Token, LexerError>(Token { offset: offset as usize, token_type: kind }),
                ) && final(self).position() == next,
                LexStep::Bad { character, offset, next } => r == Some(
                    Err::<Token, LexerError>(
                        LexerError::UnexpectedChar { character, offset: offset as usize },
                    ),
                ) && final(self).position() == next,
            },
    {
        let ghost s = self.text@;
        let ghost p0 = self.pos as int;
        let ghost ws = self.allow_whitespace;
        proof {
            lemma_lex_step_bounds(s, p0, ws);
        }
        let len = self.text.unicode_len();
        if self.allow_whitespace {
            loop
                invariant
                    self.wf(),
                    s == self.text@,
                    len == s.len(),
                    ws == self.allow_whitespace,
                    ws,
                    p0 <= self.pos as int <= s.len(),
                    spec_lex_step(s, p0, ws) == spec_lex_step(s, self.pos as int, ws),
                ensures
                    self.wf(),
                    s == self.text@,
                    ws == self.allow_whitespace,
                    p0 <= self.pos as int <= s.len(),
                    spec_lex_step(s, p0, ws) == spec_lex_step(s, self.pos as int, ws),
                    (self.pos as int) < s.len() ==> !is_space_char(s[self.pos as int]),
                decreases s.len() - self.pos,
            {
                if self.pos >= len {
                    break ;
                }
                let c = self.text.get_char(self.pos);
                if exec_is_digit(c) {
                    break ;
                }
                if c == '(' || c == ')' || c == ',' || c == ';' {
                    break ;
                }
                if !exec_is_space(c) {
                    break ;
                }
                self.pos = self.pos + 1;
            }
        }
        if let Some((offset, number)) = self.try_parse_number() {
            return Some(Ok(Token { token_type: TokenType::Number(number), offset }));
        }
        if self.pos >= len {
            return None;
        }
        let c = self.text.get_char(self.pos);
        let offset = self.pos;
        self.pos = self.pos + 1;
        let token_type = if c == '(' {
            TokenType::ParOpen
        } else if c == ')' {
            TokenType::ParClose
        } else if c == ',' {
            TokenType::Comma
        } else if c == ';' {
            TokenType::Semicolon
        } else {
            return Some(Err(LexerError::UnexpectedChar { character: c, offset }));
        };
        Some(Ok(Token { token_type, offset }))
    }
}

} // verus!
