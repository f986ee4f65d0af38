//! The parser for CTL formulae.
//!
//! The grammar, with the operators that bind least first:
//!
//! 1. infix `&&`, `||`, `->`, grouping to the left;
//! 2. infix `U`, `R` and the reserved `W`, grouping to the right;
//! 3. prefix `A`, `E`;
//! 4. prefix `!`, `X`, `F`, `G`.
//!
//! An operand is a group in parentheses, a prefix operator with its operand,
//! `true`, or an atomic proposition: a letter or `_` followed by letters,
//! digits and `_`.  Where an operand is expected the letters `A E X F G` are
//! operators, so no atomic proposition begins with one of them.  `&&` may be
//! written `&`, `/\` or `∧`; `||` may be written `|`, `\/` or `∨`; `->` may be
//! written `→`; `!` may be written `~` or `¬`.  White space may stand between
//! any two of these.
//!
//! The result is well-formed CTL: a path quantifier stands directly over a
//! temporal operator, and a temporal operator directly under a path
//! quantifier.  `a -> b` is read as `!a || b`.  A quantifier that is written
//! twice is read once; how often that was done is counted.

use crate::ctl::{CTLFormulae, Ctl};
use crate::lists::chars_of;
use crate::parser::scanner::{
    fault, infix_at, is_letter, is_word_char, left_power, lemma_word_end_after, letter,
    right_power, skip_spaces, word_end, Infix, ParseError, ParseErrorKind, Scanner,
};
use vstd::prelude::*;
use vstd::string::*;

verus! {

/// The prefix operators.
#[derive(Debug, Clone, Copy, PartialEq, Eq)]
pub enum Prefix {
    Not,
    All,
    Exist,
    Next,
    Finally,
    Globally,
}

/// The prefix operator that the character stands for, if any.
pub open spec fn prefix_of(c: char) -> Option<Prefix> {
    if c == '!' || c == '~' || c == '¬' {
        Some(Prefix::Not)
    } else if c == 'A' {
        Some(Prefix::All)
    } else if c == 'E' {
        Some(Prefix::Exist)
    } else if c == 'X' {
        Some(Prefix::Next)
    } else if c == 'F' {
        Some(Prefix::Finally)
    } else if c == 'G' {
        Some(Prefix::Globally)
    } else {
        None
    }
}

/// The least power that an operator must have to become part of the
/// operand of a prefix operator.  No infix operator has it.
pub open spec fn prefix_power(op: Prefix) -> int {
    match op {
        Prefix::All | Prefix::Exist => 5,
        _ => 7,
    }
}

/// The formula that a prefix operator at place `at` makes of its operand.
pub open spec fn with_prefix(op: Prefix, rhs: Ctl, at: int) -> Result<Ctl, ParseError> {
    match op {
        Prefix::All => if rhs is All {
            Ok(rhs)
        } else if rhs is Exist {
            Err(fault(ParseErrorKind::MixedQuantifiers, at))
        } else if rhs.is_temporal() {
            Ok(Ctl::All(Box::new(rhs)))
        } else {
            Err(fault(ParseErrorKind::MissingTemporalOperator, at))
        },
        Prefix::Exist => if rhs is Exist {
            Ok(rhs)
        } else if rhs is All {
            Err(fault(ParseErrorKind::MixedQuantifiers, at))
        } else if rhs.is_temporal() {
            Ok(Ctl::Exist(Box::new(rhs)))
        } else {
            Err(fault(ParseErrorKind::MissingTemporalOperator, at))
        },
        _ => if rhs.is_temporal() {
            Err(fault(ParseErrorKind::UnquantifiedTemporalOperator, at))
        } else {
            Ok(
                match op {
                    Prefix::Not => Ctl::Not(Box::new(rhs)),
                    Prefix::Next => Ctl::Next(Box::new(rhs)),
                    Prefix::Finally => Ctl::Finally(Box::new(rhs)),
                    _ => Ctl::Globally(Box::new(rhs)),
                },
            )
        },
    }
}

/// Whether the quantifier stands over the same quantifier: it is then read
/// once, and counted as written twice.
pub open spec fn doubled(op: Prefix, rhs: Ctl) -> bool {
    (op == Prefix::All && rhs is All) || (op == Prefix::Exist && rhs is Exist)
}

/// The formula that an infix operator at place `at` makes of its operands.
pub open spec fn with_infix(op: Infix, lhs: Ctl, rhs: Ctl, at: int) -> Result<Ctl, ParseError> {
    if op == Infix::WeakUntil {
        Err(fault(ParseErrorKind::ReservedOperator, at))
    } else if lhs.is_temporal() || rhs.is_temporal() {
        Err(fault(ParseErrorKind::UnquantifiedTemporalOperator, at))
    } else {
        Ok(
            match op {
                Infix::And => lhs.conj(rhs),
                Infix::Or => lhs.disj(rhs),
                Infix::Implies => lhs.neg().disj(rhs),
                Infix::Until => Ctl::Until(Box::new(lhs), Box::new(rhs)),
                _ => Ctl::Release(Box::new(lhs), Box::new(rhs)),
            },
        )
    }
}

/// The formula that a word stands for.
pub open spec fn word_formula(word: Seq<char>) -> Ctl {
    if word == seq!['t', 'r', 'u', 'e'] {
        Ctl::True
    } else {
        Ctl::Atomic(word)
    }
}

/// The operand that begins at `pos`, the place after it, and the number
/// of quantifiers in it that were written twice.
pub open spec fn operand(s: Seq<char>, pos: int) -> Result<(Ctl, int, nat), ParseError>
    decreases s.len() - pos, 0nat,
{
    let p = skip_spaces(s, pos);
    if p < pos || p < 0 || p >= s.len() {
        Err(fault(ParseErrorKind::UnexpectedEnd, p))
    } else if s[p] == '(' {
        match expression(s, p + 1, 0) {
            Err(e) => Err(e),
            Ok((inner, q, twice)) => {
                let close = skip_spaces(s, q);
                if 0 <= close < s.len() && s[close] == ')' {
                    Ok((inner, close + 1, twice))
                } else {
                    Err(fault(ParseErrorKind::UnclosedGroup, close))
                }
            },
        }
    } else if prefix_of(s[p]) is Some {
        let op = prefix_of(s[p])->0;
        match expression(s, p + 1, prefix_power(op)) {
            Err(e) => Err(e),
            Ok((rhs, q, twice)) => match with_prefix(op, rhs, p) {
                Err(e) => Err(e),
                Ok(f) => Ok(
                    (
                        f,
                        q,
                        if doubled(op, rhs) {
                            twice + 1
                        } else {
                            twice
                        },
                    ),
                ),
            },
        }
    } else if is_letter(s[p]) {
        let end = word_end(s, p);
        Ok((word_formula(s.subrange(p, end)), end, 0))
    } else {
        Err(fault(ParseErrorKind::UnexpectedCharacter, p))
    }
}

/// The expression that begins at `pos` and takes in every infix operator
/// of more than the power `power`, the place after it, and the number of
/// quantifiers in it that were written twice.
pub open spec fn expression(s: Seq<char>, pos: int, power: int) -> Result<
    (Ctl, int, nat),
    ParseError,
>
    decreases s.len() - pos, 2nat,
{
    match operand(s, pos) {
        Err(e) => Err(e),
        Ok((lhs, p, twice)) => if pos <= p <= s.len() {
            climb(s, lhs, p, power, twice)
        } else {
            Err(fault(ParseErrorKind::UnexpectedEnd, p))
        },
    }
}

/// The expression whose left operand `lhs` ends at `pos`, with every infix
/// operator of more than the power `power` that follows; `twice` quantifiers
/// were written twice so far.
pub open spec fn climb(s: Seq<char>, lhs: Ctl, pos: int, power: int, twice: nat) -> Result<
    (Ctl, int, nat),
    ParseError,
>
    decreases s.len() - pos, 1nat,
{
    let q = skip_spaces(s, pos);
    match infix_at(s, q) {
        None => Ok((lhs, pos, twice)),
        Some((op, width)) => if left_power(op) <= power || q < pos {
            Ok((lhs, pos, twice))
        } else if op == Infix::WeakUntil {
            Err(fault(ParseErrorKind::ReservedOperator, q))
        } else {
            match expression(s, q + width, right_power(op)) {
                Err(e) => Err(e),
                Ok((rhs, r, more)) => match with_infix(op, lhs, rhs, q) {
                    Err(e) => Err(e),
                    Ok(f) => if pos < r <= s.len() {
                        climb(s, f, r, power, twice + more)
                    } else {
                        Ok((f, r, twice + more))
                    },
                },
            }
        },
    }
}

/// The formula that a text stands for, and the number of quantifiers in the
/// text that were written twice.
pub open spec fn parsed_noting(s: Seq<char>) -> Result<(Ctl, nat), ParseError> {
    match expression(s, 0, 0) {
        Err(e) => Err(e),
        Ok((f, p, twice)) => {
            let end = skip_spaces(s, p);
            if end < s.len() {
                Err(fault(ParseErrorKind::UnexpectedCharacter, end))
            } else if f.is_temporal() {
                Err(fault(ParseErrorKind::UnquantifiedTemporalOperator, 0))
            } else {
                Ok((f, twice))
            }
        },
    }
}

/// The formula that a text stands for.
pub open spec fn parsed(s: Seq<char>) -> Result<Ctl, ParseError> {
    match parsed_noting(s) {
        Err(e) => Err(e),
        Ok((f, _)) => Ok(f),
    }
}

/// A temporal operator over well-formed formulae: what a path quantifier
/// can stand over.
pub open spec fn path_formed(f: Ctl) -> bool {
    match f {
        Ctl::Next(a) => a.well_formed(),
        Ctl::Finally(a) => a.well_formed(),
        Ctl::Globally(a) => a.well_formed(),
        Ctl::Until(a, b) => a.well_formed() && b.well_formed(),
        Ctl::Release(a, b) => a.well_formed() && b.well_formed(),
        _ => false,
    }
}

/// A name that is read as an atomic proposition: a letter that is no
/// prefix operator, or `_`, and then letters, digits and `_`; but not
/// `true`.
pub open spec fn is_word(name: Seq<char>) -> bool {
    &&& name.len() > 0
    &&& is_letter(name[0])
    &&& prefix_of(name[0]) is None
    &&& forall|i: int| 0 <= i < name.len() ==> is_word_char(#[trigger] name[i])
    &&& name != seq!['t', 'r', 'u', 'e']
}

/// Every atom of the formula has a name that is read as an atomic
/// proposition.
pub open spec fn words_only(f: Ctl) -> bool
    decreases f,
{
    match f {
        Ctl::True => true,
        Ctl::Atomic(name) => is_word(name),
        Ctl::Not(a) => words_only(*a),
        Ctl::And(a, b) => words_only(*a) && words_only(*b),
        Ctl::Or(a, b) => words_only(*a) && words_only(*b),
        Ctl::All(a) => words_only(*a),
        Ctl::Exist(a) => words_only(*a),
        Ctl::Next(a) => words_only(*a),
        Ctl::Finally(a) => words_only(*a),
        Ctl::Globally(a) => words_only(*a),
        Ctl::Until(a, b) => words_only(*a) && words_only(*b),
        Ctl::Release(a, b) => words_only(*a) && words_only(*b),
    }
}

/// A name that is read as an atomic proposition is the key of nothing but
/// its own atom.
pub proof fn lemma_word_is_atom_only(name: Seq<char>)
    requires
        is_word(name),
    ensures
        crate::keys::atom_only_name(name),
{
}

/// From the beginning of a word to its end stand characters of a word.
pub proof fn lemma_word_chars(s: Seq<char>, pos: int, i: int)
    requires
        0 <= pos <= i < word_end(s, pos),
    ensures
        i < s.len(),
        is_word_char(s[i]),
    decreases s.len() - pos,
{
    if pos < s.len() && is_word_char(s[pos]) {
        if i > pos {
            lemma_word_chars(s, pos + 1, i);
        }
    }
}

/// Well-formed, or fit to stand under a path quantifier; and with atoms
/// that are words.
pub open spec fn formed(f: Ctl) -> bool {
    (f.well_formed() || path_formed(f)) && words_only(f)
}

/// The step that was made is the step that the grammar asks for.
pub open spec fn same_step(
    got: Result<(CTLFormulae, usize, usize), ParseError>,
    want: Result<(Ctl, int, nat), ParseError>,
) -> bool {
    match (got, want) {
        (Ok((f, p, n)), Ok((g, q, m))) => f@ == g && p == q && n == m,
        (Err(a), Err(b)) => a == b,
        _ => false,
    }
}

/// The formula that was made is the formula that the grammar asks for.
pub open spec fn same_formula(got: Result<CTLFormulae, ParseError>, want: Result<Ctl, ParseError>) -> bool {
    match (got, want) {
        (Ok(f), Ok(g)) => f@ == g,
        (Err(a), Err(b)) => a == b,
        _ => false,
    }
}

/// The prefix operator that the character stands for, if any.
pub fn prefix_operator(c: char) -> (op: Option<Prefix>)
    ensures
        op == prefix_of(c),
{
    if c == '!' || c == '~' || c == '¬' {
        Some(Prefix::Not)
    } else if c == 'A' {
        Some(Prefix::All)
    } else if c == 'E' {
        Some(Prefix::Exist)
    } else if c == 'X' {
        Some(Prefix::Next)
    } else if c == 'F' {
        Some(Prefix::Finally)
    } else if c == 'G' {
        Some(Prefix::Globally)
    } else {
        None
    }
}

impl CTLFormulae {
    /// Whether the root is one of the temporal operators X, F, G, U, R.
    pub fn has_temporal_root(&self) -> (yes: bool)
        ensures
            yes == self@.is_temporal(),
    {
        match self {
            CTLFormulae::Next(_) => true,
            CTLFormulae::Finally(_) => true,
            CTLFormulae::Globally(_) => true,
            CTLFormulae::Until(_, _) => true,
            CTLFormulae::Release(_, _) => true,
            _ => false,
        }
    }
}

/// Whether the quantifier stands over the same quantifier.
pub fn is_doubled(op: Prefix, rhs: &CTLFormulae) -> (yes: bool)
    ensures
        yes == doubled(op, rhs@),
{
    match op {
        Prefix::All => match rhs {
            CTLFormulae::All(_) => true,
            _ => false,
        },
        Prefix::Exist => match rhs {
            CTLFormulae::Exist(_) => true,
            _ => false,
        },
        _ => false,
    }
}

/// The formula that a prefix operator at place `at` makes of its operand.
pub fn apply_prefix(op: Prefix, rhs: CTLFormulae, at: usize) -> (out: Result<
    CTLFormulae,
    ParseError,
>)
    requires
        formed(rhs@),
    ensures
        same_formula(out, with_prefix(op, rhs@, at as int)),
        out matches Ok(f) ==> formed(f@),
{
    proof {
        reveal_with_fuel(words_only, 2);
    }
    match op {
        Prefix::All => match rhs {
            CTLFormulae::All(_) => Ok(rhs),
            CTLFormulae::Exist(_) => Err(
                ParseError { kind: ParseErrorKind::MixedQuantifiers, position: at },
            ),
            _ => if rhs.has_temporal_root() {
                Ok(CTLFormulae::All(Box::new(rhs)))
            } else {
                Err(ParseError { kind: ParseErrorKind::MissingTemporalOperator, position: at })
            },
        },
        Prefix::Exist => match rhs {
            CTLFormulae::Exist(_) => Ok(rhs),
            CTLFormulae::All(_) => Err(
                ParseError { kind: ParseErrorKind::MixedQuantifiers, position: at },
            ),
            _ => if rhs.has_temporal_root() {
                Ok(CTLFormulae::Exist(Box::new(rhs)))
            } else {
                Err(ParseError { kind: ParseErrorKind::MissingTemporalOperator, position: at })
            },
        },
        _ => if rhs.has_temporal_root() {
            Err(ParseError { kind: ParseErrorKind::UnquantifiedTemporalOperator, position: at })
        } else {
            Ok(
                match op {
                    Prefix::Not => CTLFormulae::Not(Box::new(rhs)),
                    Prefix::Next => CTLFormulae::Next(Box::new(rhs)),
                    Prefix::Finally => CTLFormulae::Finally(Box::new(rhs)),
                    _ => CTLFormulae::Globally(Box::new(rhs)),
                },
            )
        },
    }
}

/// The formula that an infix operator at place `at` makes of its operands.
pub fn apply_infix(op: Infix, lhs: CTLFormulae, rhs: CTLFormulae, at: usize) -> (out: Result<
    CTLFormulae,
    ParseError,
>)
    requires
        formed(lhs@),
        formed(rhs@),
    ensures
        same_formula(out, with_infix(op, lhs@, rhs@, at as int)),
        out matches Ok(f) ==> formed(f@),
{
    proof {
        reveal_with_fuel(CTLFormulae::model, 2);
        reveal_with_fuel(Ctl::well_formed, 3);
        reveal_with_fuel(words_only, 3);
    }
    match op {
        Infix::WeakUntil => Err(
            ParseError { kind: ParseErrorKind::ReservedOperator, position: at },
        ),
        _ => if lhs.has_temporal_root() || rhs.has_temporal_root() {
            Err(ParseError { kind: ParseErrorKind::UnquantifiedTemporalOperator, position: at })
        } else {
            Ok(
                match op {
                    Infix::And => CTLFormulae::And(Box::new(lhs), Box::new(rhs)),
                    Infix::Or => CTLFormulae::Or(Box::new(lhs), Box::new(rhs)),
                    Infix::Implies => CTLFormulae::Or(
                        Box::new(CTLFormulae::Not(Box::new(lhs))),
                        Box::new(rhs),
                    ),
                    Infix::Until => CTLFormulae::Until(Box::new(lhs), Box::new(rhs)),
                    _ => CTLFormulae::Release(Box::new(lhs), Box::new(rhs)),
                },
            )
        },
    }
}

/// The parser for CTL formulae: a text and the place up to which it has
/// been read.
pub struct CTLParser {
    pub scanner: Scanner,
}

impl CTLParser {
    /// The characters are those of the text.
    pub open spec fn wf(&self) -> bool {
        self.scanner.wf()
    }

    /// A parser for the text.
    pub fn new(input: &str) -> (parser: CTLParser)
        ensures
            parser.wf(),
            parser.scanner.chars@ == input@,
    {
        CTLParser { scanner: Scanner::new(input) }
    }

    /// The formula that the word from `from` to `to` stands for.
    pub fn word(&self, from: usize, to: usize) -> (f: CTLFormulae)
        requires
            self.wf(),
            from < to <= self.scanner.chars@.len(),
            to == word_end(self.scanner.chars@, from as int),
            is_letter(self.scanner.chars@[from as int]),
            prefix_of(self.scanner.chars@[from as int]) is None,
        ensures
            f@ == word_formula(self.scanner.chars@.subrange(from as int, to as int)),
            formed(f@),
    {
        proof {
            let word = self.scanner.chars@.subrange(from as int, to as int);
            assert forall|i: int| 0 <= i < word.len() implies is_word_char(#[trigger] word[i]) by {
                lemma_word_chars(self.scanner.chars@, from as int, from + i);
            }
        }
        let name = self.scanner.slice(from, to);
        proof {
            reveal_strlit("true");
        }
        let chars = chars_of(name);
        if crate::keys::spells_true(&chars) {
            CTLFormulae::True
        } else {
            CTLFormulae::Atomic(String::from_str(name))
        }
    }

    /// The operand that begins at `pos`, the place after it, and the
    /// number of quantifiers in it that were written twice.
    pub fn parse_operand(&self, pos: usize) -> (step: Result<
        (CTLFormulae, usize, usize),
        ParseError,
    >)
        requires
            self.wf(),
            pos <= self.scanner.chars@.len(),
        ensures
            same_step(step, operand(self.scanner.chars@, pos as int)),
            step matches Ok((f, p, n)) ==> formed(f@) && pos < p <= self.scanner.chars@.len() && n
                < p - pos,
        decreases self.scanner.chars@.len() - pos, 0nat,
    {
        let p = self.scanner.after_spaces(pos);
        if p >= self.scanner.chars.len() {
            return Err(ParseError { kind: ParseErrorKind::UnexpectedEnd, position: p });
        }
        let c = self.scanner.chars[p];
        if c == '(' {
            let (inner, q, twice) = match self.parse_expr(p + 1, 0) {
                Ok(step) => step,
                Err(e) => {
                    return Err(e);
                },
            };
            let close = self.scanner.after_spaces(q);
            if close < self.scanner.chars.len() && self.scanner.chars[close] == ')' {
                Ok((inner, close + 1, twice))
            } else {
                Err(ParseError { kind: ParseErrorKind::UnclosedGroup, position: close })
            }
        } else if let Some(op) = prefix_operator(c) {
            let power: u8 = match op {
                Prefix::All => 5,
                Prefix::Exist => 5,
                _ => 7,
            };
            let (rhs, q, twice) = match self.parse_expr(p + 1, power) {
                Ok(step) => step,
                Err(e) => {
                    return Err(e);
                },
            };
            let twice = if is_doubled(op, &rhs) {
                twice + 1
            } else {
                twice
            };
            match apply_prefix(op, rhs, p) {
                Ok(f) => Ok((f, q, twice)),
                Err(e) => Err(e),
            }
        } else if letter(c) {
            let end = self.scanner.after_word(p);
            assert(end > p) by {
                assert(is_word_char(self.scanner.chars@[p as int]));
                lemma_word_end_after(self.scanner.chars@, p + 1);
            }
            Ok((self.word(p, end), end, 0))
        } else {
            Err(ParseError { kind: ParseErrorKind::UnexpectedCharacter, position: p })
        }
    }

    /// The expression that begins at `pos` and takes in every infix
    /// operator of more than the power `power`, the place after it, and
    /// the number of quantifiers in it that were written twice.
    pub fn parse_expr(&self, pos: usize, power: u8) -> (step: Result<
        (CTLFormulae, usize, usize),
        ParseError,
    >)
        requires
            self.wf(),
            pos <= self.scanner.chars@.len(),
        ensures
            same_step(step, expression(self.scanner.chars@, pos as int, power as int)),
            step matches Ok((f, p, n)) ==> formed(f@) && pos < p <= self.scanner.chars@.len() && n
                < p - pos,
        decreases self.scanner.chars@.len() - pos, 2nat,
    {
        let (first, start, noted) = match self.parse_operand(pos) {
            Ok(step) => step,
            Err(e) => {
                return Err(e);
            },
        };
        let mut lhs = first;
        let mut p = start;
        let mut twice = noted;
        let ghost want = expression(self.scanner.chars@, pos as int, power as int);
        loop
            invariant
                self.wf(),
                pos < p <= self.scanner.chars@.len(),
                twice < p - pos,
                formed(lhs@),
                climb(self.scanner.chars@, lhs@, p as int, power as int, twice as nat) == want,
                want == expression(self.scanner.chars@, pos as int, power as int),
            decreases self.scanner.chars@.len() - p,
        {
            let q = self.scanner.after_spaces(p);
            let found = self.scanner.infix_operator(q);
            let (op, width) = match found {
                Some((op, width)) => (op, width),
                None => {
                    return Ok((lhs, p, twice));
                },
            };
            assert(q + width <= self.scanner.chars.len());
            let left: u8 = match op {
                Infix::And => 2,
                Infix::Or => 2,
                Infix::Implies => 2,
                _ => 4,
            };
            if left <= power {
                return Ok((lhs, p, twice));
            }
            if let Infix::WeakUntil = op {
                return Err(ParseError { kind: ParseErrorKind::ReservedOperator, position: q });
            }
            let right: u8 = match op {
                Infix::And => 2,
                Infix::Or => 2,
                Infix::Implies => 2,
                _ => 3,
            };
            let (rhs, r, more) = match self.parse_expr(q + width, right) {
                Ok(step) => step,
                Err(e) => {
                    return Err(e);
                },
            };
            lhs = match apply_infix(op, lhs, rhs, q) {
                Ok(f) => f,
                Err(e) => {
                    return Err(e);
                },
            };
            p = r;
            twice = twice + more;
        }
    }
}

/// The formula and the count that were made are those that the grammar
/// asks for.
pub open spec fn same_noting(
    got: Result<(CTLFormulae, usize), ParseError>,
    want: Result<(Ctl, nat), ParseError>,
) -> bool {
    match (got, want) {
        (Ok((f, n)), Ok((g, m))) => f@ == g && n == m,
        (Err(a), Err(b)) => a == b,
        _ => false,
    }
}

/// Reads a CTL formula and counts the quantifiers that were written twice:
/// each of them is read once, and whoever reads the text to a user may warn
/// of it.  The formula is well-formed CTL, and its atoms have names that
/// begin with no operator.
pub fn parse_ctl_noting(input: &str) -> (result: Result<(CTLFormulae, usize), ParseError>)
    ensures
        same_noting(result, parsed_noting(input@)),
        result matches Ok((f, _)) ==> f@.well_formed() && words_only(f@),
{
    let parser = CTLParser::new(input);
    let (f, p, twice) = match parser.parse_expr(0, 0) {
        Ok(step) => step,
        Err(e) => {
            return Err(e);
        },
    };
    let end = parser.scanner.after_spaces(p);
    if end < parser.scanner.chars.len() {
        return Err(ParseError { kind: ParseErrorKind::UnexpectedCharacter, position: end });
    }
    if f.has_temporal_root() {
        return Err(
            ParseError { kind: ParseErrorKind::UnquantifiedTemporalOperator, position: 0 },
        );
    }
    Ok((f, twice))
}

/// Reads a CTL formula.  The result is well-formed CTL, and its atoms have
/// names that begin with no operator.
pub fn parse_ctl(input: &str) -> (result: Result<CTLFormulae, ParseError>)
    ensures
        same_formula(result, parsed(input@)),
        result matches Ok(f) ==> f@.well_formed() && words_only(f@),
{
    match parse_ctl_noting(input) {
        Ok((f, _)) => Ok(f),
        Err(e) => Err(e),
    }
}

} // verus!
