//! Reading a text character by character: white space, words and infix
//! operators, as the parsers of formulae share them.

use crate::lists::chars_of;
use vstd::prelude::*;
use vstd::string::*;

verus! {

/// What is wrong with a text that is no formula.
#[derive(Debug, Clone, Copy, PartialEq, Eq)]
pub enum ParseErrorKind {
    /// The text ends where an operand is expected.
    UnexpectedEnd,
    /// A character stands where none like it can stand.
    UnexpectedCharacter,
    /// A group is not closed by `)`.
    UnclosedGroup,
    /// `A` stands directly over `E`, or `E` over `A`.
    MixedQuantifiers,
    /// A path quantifier does not stand over a temporal operator.
    MissingTemporalOperator,
    /// A temporal operator does not stand under a path quantifier.
    UnquantifiedTemporalOperator,
    /// The weak until `W` is reserved.
    ReservedOperator,
}

/// An error of the parser: what is wrong, and the number of characters
/// before the place where it was found.
#[derive(Debug, Clone, Copy, PartialEq, Eq)]
pub struct ParseError {
    pub kind: ParseErrorKind,
    pub position: usize,
}

/// The infix operators.
#[derive(Debug, Clone, Copy, PartialEq, Eq)]
pub enum Infix {
    And,
    Or,
    Implies,
    Until,
    WeakUntil,
    Release,
}

/// White space: blank, tab, line feed, carriage return.
pub open spec fn is_space(c: char) -> bool {
    c == ' ' || c == '\t' || c == '\n' || c == '\r'
}

/// What a word may begin with: a letter or `_`.
pub open spec fn is_letter(c: char) -> bool {
    ('a' <= c && c <= 'z') || ('A' <= c && c <= 'Z') || c == '_'
}

/// What a word may go on with: a letter, `_` or a digit.
pub open spec fn is_word_char(c: char) -> bool {
    is_letter(c) || ('0' <= c && c <= '9')
}

/// The infix operator that begins at `pos`, if any, and the number of its
/// characters.
pub open spec fn infix_at(s: Seq<char>, pos: int) -> Option<(Infix, int)> {
    if pos < 0 || pos >= s.len() {
        None
    } else {
        let c = s[pos];
        let d = if pos + 1 < s.len() {
            Some(s[pos + 1])
        } else {
            None
        };
        if c == '&' && d == Some('&') {
            Some((Infix::And, 2))
        } else if c == '/' && d == Some('\\') {
            Some((Infix::And, 2))
        } else if c == '|' && d == Some('|') {
            Some((Infix::Or, 2))
        } else if c == '\\' && d == Some('/') {
            Some((Infix::Or, 2))
        } else if c == '-' && d == Some('>') {
            Some((Infix::Implies, 2))
        } else if c == '&' || c == '∧' {
            Some((Infix::And, 1))
        } else if c == '|' || c == '∨' {
            Some((Infix::Or, 1))
        } else if c == '→' {
            Some((Infix::Implies, 1))
        } else if c == 'U' {
            Some((Infix::Until, 1))
        } else if c == 'R' {
            Some((Infix::Release, 1))
        } else if c == 'W' {
            Some((Infix::WeakUntil, 1))
        } else {
            None
        }
    }
}

/// How strongly an infix operator binds what stands on its left.
pub open spec fn left_power(op: Infix) -> int {
    match op {
        Infix::And | Infix::Or | Infix::Implies => 2,
        _ => 4,
    }
}

/// The least power that an operator must have to become part of the right
/// operand: the operator's own power where it groups to the left, one less
/// where it groups to the right.
pub open spec fn right_power(op: Infix) -> int {
    match op {
        Infix::And | Infix::Or | Infix::Implies => 2,
        _ => 3,
    }
}

/// The error of the given kind at the place `at`.
pub open spec fn fault(kind: ParseErrorKind, at: int) -> ParseError {
    ParseError { kind, position: at as usize }
}

/// The first place at or after `pos` where no white space stands.
pub open spec fn skip_spaces(s: Seq<char>, pos: int) -> int
    decreases s.len() - pos,
{
    if 0 <= pos < s.len() && is_space(s[pos]) {
        skip_spaces(s, pos + 1)
    } else {
        pos
    }
}

/// The first place at or after `pos` where no character of a word stands.
pub open spec fn word_end(s: Seq<char>, pos: int) -> int
    decreases s.len() - pos,
{
    if 0 <= pos < s.len() && is_word_char(s[pos]) {
        word_end(s, pos + 1)
    } else {
        pos
    }
}

/// Whether the character is white space.
pub fn space(c: char) -> (yes: bool)
    ensures
        yes == is_space(c),
{
    c == ' ' || c == '\t' || c == '\n' || c == '\r'
}

/// Whether a word may begin with the character.
pub fn letter(c: char) -> (yes: bool)
    ensures
        yes == is_letter(c),
{
    ('a' <= c && c <= 'z') || ('A' <= c && c <= 'Z') || c == '_'
}

/// Whether a word may go on with the character.
pub fn word_char(c: char) -> (yes: bool)
    ensures
        yes == is_word_char(c),
{
    letter(c) || ('0' <= c && c <= '9')
}

/// A word does not end before it begins.
pub proof fn lemma_word_end_after(s: Seq<char>, pos: int)
    ensures
        word_end(s, pos) >= pos,
    decreases s.len() - pos,
{
    if 0 <= pos < s.len() && is_word_char(s[pos]) {
        lemma_word_end_after(s, pos + 1);
    }
}

/// A text that is being parsed.
pub struct Scanner {
    pub text: String,
    pub chars: Vec<char>,
}

impl Scanner {
    /// The characters are those of the text.
    pub open spec fn wf(&self) -> bool {
        self.chars@ == self.text@
    }

    /// A scanner for the text.
    pub fn new(input: &str) -> (scanner: Scanner)
        ensures
            scanner.wf(),
            scanner.chars@ == input@,
    {
        Scanner { text: String::from_str(input), chars: chars_of(input) }
    }

    /// The first place at or after `pos` where no white space stands.
    pub fn after_spaces(&self, pos: usize) -> (p: usize)
        requires
            pos <= self.chars@.len(),
        ensures
            p == skip_spaces(self.chars@, pos as int),
            pos <= p <= self.chars@.len(),
    {
        let mut p = pos;
        while p < self.chars.len() && space(self.chars[p])
            invariant
                pos <= p <= self.chars@.len(),
                skip_spaces(self.chars@, p as int) == skip_spaces(self.chars@, pos as int),
            decreases self.chars@.len() - p,
        {
            p += 1;
        }
        p
    }

    /// The first place at or after `pos` where no character of a word
    /// stands.
    pub fn after_word(&self, pos: usize) -> (p: usize)
        requires
            pos <= self.chars@.len(),
        ensures
            p == word_end(self.chars@, pos as int),
            pos <= p <= self.chars@.len(),
    {
        let mut p = pos;
        while p < self.chars.len() && word_char(self.chars[p])
            invariant
                pos <= p <= self.chars@.len(),
                word_end(self.chars@, p as int) == word_end(self.chars@, pos as int),
            decreases self.chars@.len() - p,
        {
            p += 1;
        }
        p
    }

    /// The infix operator that begins at `pos`, if any, and the number of
    /// its characters.
    pub fn infix_operator(&self, pos: usize) -> (found: Option<(Infix, usize)>)
        requires
            pos <= self.chars@.len(),
        ensures
            match (found, infix_at(self.chars@, pos as int)) {
                (Some((op, width)), Some((op2, width2))) => op == op2 && width == width2 && 1
                    <= width && pos + width <= self.chars@.len(),
                (None, None) => true,
                _ => false,
            },
    {
        if pos >= self.chars.len() {
            return None;
        }
        let c = self.chars[pos];
        let d = if pos + 1 < self.chars.len() {
            Some(self.chars[pos + 1])
        } else {
            None
        };
        let pair = match d {
            Some(d) => if c == '&' && d == '&' {
                Some(Infix::And)
            } else if c == '/' && d == '\\' {
                Some(Infix::And)
            } else if c == '|' && d == '|' {
                Some(Infix::Or)
            } else if c == '\\' && d == '/' {
                Some(Infix::Or)
            } else if c == '-' && d == '>' {
                Some(Infix::Implies)
            } else {
                None
            },
            None => None,
        };
        match pair {
            Some(op) => Some((op, 2)),
            None => if c == '&' || c == '∧' {
                Some((Infix::And, 1))
            } else if c == '|' || c == '∨' {
                Some((Infix::Or, 1))
            } else if c == '→' {
                Some((Infix::Implies, 1))
            } else if c == 'U' {
                Some((Infix::Until, 1))
            } else if c == 'R' {
                Some((Infix::Release, 1))
            } else if c == 'W' {
                Some((Infix::WeakUntil, 1))
            } else {
                None
            },
        }
    }

    /// The text from `from` to `to`.
    pub fn slice(&self, from: usize, to: usize) -> (part: &str)
        requires
            self.wf(),
            from <= to <= self.chars@.len(),
        ensures
            part@ == self.chars@.subrange(from as int, to as int),
    {
        self.text.as_str().substring_char(from, to)
    }
}

} // verus!
