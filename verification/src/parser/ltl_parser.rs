//! The parser for LTL formulae.
//!
//! The grammar, with the operators that bind least first:
//!
//! 1. infix `&&`, `||`, `->`, grouping to the left;
//! 2. infix `U`, and the reserved `R` and `W`, grouping to the right;
//! 3. prefix `G`, `F`;
//! 4. prefix `!`, `X`.
//!
//! Operands, spellings and white space are those of the CTL parser, but
//! that the letters which are operators where an operand is expected are
//! `X F G`.
//!
//! The formulae are built from `true`, atoms, `!`, `&&`, `X` and `U` alone:
//! `a || b` is read as `!(!a && !b)`, `a -> b` as `!(a && !b)`, `F a` as
//! `true U a` and `G a` as `!(true U !a)`.

use crate::lists::chars_of;
use crate::ltl::{LTLFormulae, Ltl};
use crate::parser::scanner::{
    fault, infix_at, is_letter, is_word_char, left_power, lemma_word_end_after, letter,
    right_power, skip_spaces, word_end, Infix, ParseError, ParseErrorKind, Scanner,
};
use vstd::prelude::*;
use vstd::string::*;

verus! {

/// The prefix operators.
#[derive(Debug, Clone, Copy, PartialEq, Eq)]
pub enum Prefix {
    Not,
    Next,
    Globally,
    Eventually,
}

/// The prefix operator that the character stands for, if any.
pub open spec fn prefix_of(c: char) -> Option<Prefix> {
    if c == '!' || c == '~' || c == '¬' {
        Some(Prefix::Not)
    } else if c == 'X' {
        Some(Prefix::Next)
    } else if c == 'G' {
        Some(Prefix::Globally)
    } else if c == 'F' {
        Some(Prefix::Eventually)
    } else {
        None
    }
}

/// The least power that an operator must have to become part of the
/// operand of a prefix operator.  No infix operator has it.
pub open spec fn prefix_power(op: Prefix) -> int {
    match op {
        Prefix::Globally | Prefix::Eventually => 5,
        _ => 7,
    }
}

impl Ltl {
    /// `!self`
    pub open spec fn neg(self) -> Ltl {
        Ltl::Not(Box::new(self))
    }

    /// `self && other`
    pub open spec fn conj(self, other: Ltl) -> Ltl {
        Ltl::And(Box::new(self), Box::new(other))
    }

    /// `self U other`
    pub open spec fn until(self, other: Ltl) -> Ltl {
        Ltl::Until(Box::new(self), Box::new(other))
    }
}

/// The formula that a prefix operator makes of its operand.
pub open spec fn with_prefix(op: Prefix, rhs: Ltl) -> Ltl {
    match op {
        Prefix::Not => rhs.neg(),
        Prefix::Next => Ltl::Next(Box::new(rhs)),
        Prefix::Globally => Ltl::True.until(rhs.neg()).neg(),
        Prefix::Eventually => Ltl::True.until(rhs),
    }
}

/// The infix operator is one that the formulae can express.
pub open spec fn expressible(op: Infix) -> bool {
    op != Infix::WeakUntil && op != Infix::Release
}

/// The formula that an infix operator makes of its operands.
pub open spec fn with_infix(op: Infix, lhs: Ltl, rhs: Ltl) -> Ltl {
    match op {
        Infix::And => lhs.conj(rhs),
        Infix::Or => lhs.neg().conj(rhs.neg()).neg(),
        Infix::Implies => lhs.conj(rhs.neg()).neg(),
        _ => lhs.until(rhs),
    }
}

/// The formula that a word stands for.
pub open spec fn word_formula(word: Seq<char>) -> Ltl {
    if word == seq!['t', 'r', 'u', 'e'] {
        Ltl::True
    } else {
        Ltl::Atomic(word)
    }
}

/// The operand that begins at `pos`, and the place after it.
pub open spec fn operand(s: Seq<char>, pos: int) -> Result<(Ltl, int), ParseError>
    decreases s.len() - pos, 0nat,
{
    let p = skip_spaces(s, pos);
    if p < pos || p < 0 || p >= s.len() {
        Err(fault(ParseErrorKind::UnexpectedEnd, p))
    } else if s[p] == '(' {
        match expression(s, p + 1, 0) {
            Err(e) => Err(e),
            Ok((inner, q)) => {
                let close = skip_spaces(s, q);
                if 0 <= close < s.len() && s[close] == ')' {
                    Ok((inner, close + 1))
                } else {
                    Err(fault(ParseErrorKind::UnclosedGroup, close))
                }
            },
        }
    } else if prefix_of(s[p]) is Some {
        let op = prefix_of(s[p])->0;
        match expression(s, p + 1, prefix_power(op)) {
            Err(e) => Err(e),
            Ok((rhs, q)) => Ok((with_prefix(op, rhs), q)),
        }
    } else if is_letter(s[p]) {
        let end = word_end(s, p);
        Ok((word_formula(s.subrange(p, end)), end))
    } else {
        Err(fault(ParseErrorKind::UnexpectedCharacter, p))
    }
}

/// The expression that begins at `pos` and takes in every infix operator
/// of more than the power `power`, and the place after it.
pub open spec fn expression(s: Seq<char>, pos: int, power: int) -> Result<(Ltl, int), ParseError>
    decreases s.len() - pos, 2nat,
{
    match operand(s, pos) {
        Err(e) => Err(e),
        Ok((lhs, p)) => if pos <= p <= s.len() {
            climb(s, lhs, p, power)
        } else {
            Err(fault(ParseErrorKind::UnexpectedEnd, p))
        },
    }
}

/// The expression whose left operand `lhs` ends at `pos`, with every infix
/// operator of more than the power `power` that follows.
pub open spec fn climb(s: Seq<char>, lhs: Ltl, pos: int, power: int) -> Result<
    (Ltl, int),
    ParseError,
>
    decreases s.len() - pos, 1nat,
{
    let q = skip_spaces(s, pos);
    match infix_at(s, q) {
        None => Ok((lhs, pos)),
        Some((op, width)) => if left_power(op) <= power || q < pos {
            Ok((lhs, pos))
        } else if !expressible(op) {
            Err(fault(ParseErrorKind::ReservedOperator, q))
        } else {
            match expression(s, q + width, right_power(op)) {
                Err(e) => Err(e),
                Ok((rhs, r)) => if pos < r <= s.len() {
                    climb(s, with_infix(op, lhs, rhs), r, power)
                } else {
                    Ok((with_infix(op, lhs, rhs), r))
                },
            }
        },
    }
}

/// The formula that a text stands for.
pub open spec fn parsed(s: Seq<char>) -> Result<Ltl, ParseError> {
    match expression(s, 0, 0) {
        Err(e) => Err(e),
        Ok((f, p)) => {
            let end = skip_spaces(s, p);
            if end < s.len() {
                Err(fault(ParseErrorKind::UnexpectedCharacter, end))
            } else {
                Ok(f)
            }
        },
    }
}

/// The step that was made is the step that the grammar asks for.
pub open spec fn same_step(
    got: Result<(LTLFormulae, usize), ParseError>,
    want: Result<(Ltl, int), ParseError>,
) -> bool {
    match (got, want) {
        (Ok((f, p)), Ok((g, q))) => f@ == g && p == q,
        (Err(a), Err(b)) => a == b,
        _ => false,
    }
}

/// The formula that was made is the formula that the grammar asks for.
pub open spec fn same_formula(got: Result<LTLFormulae, ParseError>, want: Result<Ltl, ParseError>) -> bool {
    match (got, want) {
        (Ok(f), Ok(g)) => f@ == g,
        (Err(a), Err(b)) => a == b,
        _ => false,
    }
}

/// The prefix operator that the character stands for, if any.
pub fn prefix_operator(c: char) -> (op: Option<Prefix>)
    ensures
        op == prefix_of(c),
{
    if c == '!' || c == '~' || c == '¬' {
        Some(Prefix::Not)
    } else if c == 'X' {
        Some(Prefix::Next)
    } else if c == 'G' {
        Some(Prefix::Globally)
    } else if c == 'F' {
        Some(Prefix::Eventually)
    } else {
        None
    }
}

impl LTLFormulae {
    /// `!f`
    pub fn not(f: LTLFormulae) -> (out: LTLFormulae)
        ensures
            out@ == f@.neg(),
    {
        LTLFormulae::Not(Box::new(f))
    }

    /// `f && g`
    pub fn and(f: LTLFormulae, g: LTLFormulae) -> (out: LTLFormulae)
        ensures
            out@ == f@.conj(g@),
    {
        LTLFormulae::And(Box::new(f), Box::new(g))
    }

    /// `f U g`
    pub fn until(f: LTLFormulae, g: LTLFormulae) -> (out: LTLFormulae)
        ensures
            out@ == f@.until(g@),
    {
        LTLFormulae::Until(Box::new(f), Box::new(g))
    }
}

/// The formula that a prefix operator makes of its operand.
pub fn apply_prefix(op: Prefix, rhs: LTLFormulae) -> (out: LTLFormulae)
    ensures
        out@ == with_prefix(op, rhs@),
{
    match op {
        Prefix::Not => LTLFormulae::not(rhs),
        Prefix::Next => LTLFormulae::Next(Box::new(rhs)),
        Prefix::Globally => LTLFormulae::not(
            LTLFormulae::until(LTLFormulae::True, LTLFormulae::not(rhs)),
        ),
        Prefix::Eventually => LTLFormulae::until(LTLFormulae::True, rhs),
    }
}

/// The formula that an infix operator makes of its operands.
pub fn apply_infix(op: Infix, lhs: LTLFormulae, rhs: LTLFormulae) -> (out: LTLFormulae)
    ensures
        out@ == with_infix(op, lhs@, rhs@),
{
    match op {
        Infix::And => LTLFormulae::and(lhs, rhs),
        Infix::Or => LTLFormulae::not(
            LTLFormulae::and(LTLFormulae::not(lhs), LTLFormulae::not(rhs)),
        ),
        Infix::Implies => LTLFormulae::not(LTLFormulae::and(lhs, LTLFormulae::not(rhs))),
        _ => LTLFormulae::until(lhs, rhs),
    }
}

/// The parser for LTL formulae: a text and the place up to which it has
/// been read.
pub struct LTLParser {
    pub scanner: Scanner,
}

impl LTLParser {
    /// The characters are those of the text.
    pub open spec fn wf(&self) -> bool {
        self.scanner.wf()
    }

    /// A parser for the text.
    pub fn new(input: &str) -> (parser: LTLParser)
        ensures
            parser.wf(),
            parser.scanner.chars@ == input@,
    {
        LTLParser { scanner: Scanner::new(input) }
    }

    /// The formula that the word from `from` to `to` stands for.
    pub fn word(&self, from: usize, to: usize) -> (f: LTLFormulae)
        requires
            self.wf(),
            from <= to <= self.scanner.chars@.len(),
        ensures
            f@ == word_formula(self.scanner.chars@.subrange(from as int, to as int)),
    {
        let name = self.scanner.slice(from, to);
        let chars = chars_of(name);
        if crate::keys::spells_true(&chars) {
            LTLFormulae::True
        } else {
            LTLFormulae::Atomic(String::from_str(name))
        }
    }

    /// The operand that begins at `pos`, and the place after it.
    pub fn parse_operand(&self, pos: usize) -> (step: Result<(LTLFormulae, usize), ParseError>)
        requires
            self.wf(),
            pos <= self.scanner.chars@.len(),
        ensures
            same_step(step, operand(self.scanner.chars@, pos as int)),
            step matches Ok((_, p)) ==> pos < p <= self.scanner.chars@.len(),
        decreases self.scanner.chars@.len() - pos, 0nat,
    {
        let p = self.scanner.after_spaces(pos);
        if p >= self.scanner.chars.len() {
            return Err(ParseError { kind: ParseErrorKind::UnexpectedEnd, position: p });
        }
        let c = self.scanner.chars[p];
        if c == '(' {
            let (inner, q) = match self.parse_expr(p + 1, 0) {
                Ok(step) => step,
                Err(e) => {
                    return Err(e);
                },
            };
            let close = self.scanner.after_spaces(q);
            if close < self.scanner.chars.len() && self.scanner.chars[close] == ')' {
                Ok((inner, close + 1))
            } else {
                Err(ParseError { kind: ParseErrorKind::UnclosedGroup, position: close })
            }
        } else if let Some(op) = prefix_operator(c) {
            let power: u8 = match op {
                Prefix::Globally => 5,
                Prefix::Eventually => 5,
                _ => 7,
            };
            let (rhs, q) = match self.parse_expr(p + 1, power) {
                Ok(step) => step,
                Err(e) => {
                    return Err(e);
                },
            };
            Ok((apply_prefix(op, rhs), q))
        } else if letter(c) {
            let end = self.scanner.after_word(p);
            assert(end > p) by {
                assert(is_word_char(self.scanner.chars@[p as int]));
                lemma_word_end_after(self.scanner.chars@, p + 1);
            }
            Ok((self.word(p, end), end))
        } else {
            Err(ParseError { kind: ParseErrorKind::UnexpectedCharacter, position: p })
        }
    }

    /// The expression that begins at `pos` and takes in every infix
    /// operator of more than the power `power`, and the place after it.
    pub fn parse_expr(&self, pos: usize, power: u8) -> (step: Result<
        (LTLFormulae, usize),
        ParseError,
    >)
        requires
            self.wf(),
            pos <= self.scanner.chars@.len(),
        ensures
            same_step(step, expression(self.scanner.chars@, pos as int, power as int)),
            step matches Ok((_, p)) ==> pos < p <= self.scanner.chars@.len(),
        decreases self.scanner.chars@.len() - pos, 2nat,
    {
        let (first, start) = match self.parse_operand(pos) {
            Ok(step) => step,
            Err(e) => {
                return Err(e);
            },
        };
        let mut lhs = first;
        let mut p = start;
        let ghost want = expression(self.scanner.chars@, pos as int, power as int);
        loop
            invariant
                self.wf(),
                pos < p <= self.scanner.chars@.len(),
                climb(self.scanner.chars@, lhs@, p as int, power as int) == want,
                want == expression(self.scanner.chars@, pos as int, power as int),
            decreases self.scanner.chars@.len() - p,
        {
            let q = self.scanner.after_spaces(p);
            let found = self.scanner.infix_operator(q);
            let (op, width) = match found {
                Some((op, width)) => (op, width),
                None => {
                    return Ok((lhs, p));
                },
            };
            assert(q + width <= self.scanner.chars.len());
            let left: u8 = match op {
                Infix::And => 2,
                Infix::Or => 2,
                Infix::Implies => 2,
                _ => 4,
            };
            if left <= power {
                return Ok((lhs, p));
            }
            let reserved = match op {
                Infix::WeakUntil => true,
                Infix::Release => true,
                _ => false,
            };
            if reserved {
                return Err(ParseError { kind: ParseErrorKind::ReservedOperator, position: q });
            }
            let right: u8 = match op {
                Infix::And => 2,
                Infix::Or => 2,
                Infix::Implies => 2,
                _ => 3,
            };
            let (rhs, r) = match self.parse_expr(q + width, right) {
                Ok(step) => step,
                Err(e) => {
                    return Err(e);
                },
            };
            lhs = apply_infix(op, lhs, rhs);
            p = r;
        }
    }
}

/// Reads an LTL formula.
pub fn parse_ltl(input: &str) -> (result: Result<LTLFormulae, ParseError>)
    ensures
        same_formula(result, parsed(input@)),
{
    let parser = LTLParser::new(input);
    let (f, p) = match parser.parse_expr(0, 0) {
        Ok(step) => step,
        Err(e) => {
            return Err(e);
        },
    };
    let end = parser.scanner.after_spaces(p);
    if end < parser.scanner.chars.len() {
        return Err(ParseError { kind: ParseErrorKind::UnexpectedCharacter, position: end });
    }
    Ok(f)
}

} // verus!
