//! Arithmetic formulas over named variables.
//!
//! A formula is built from `+`, `-`, `*`, `/`, `<<`, `>>`, unary `-`,
//! parentheses, numbers and variable names. Reading one gives an expression
//! tree; evaluating a tree takes the arithmetic from the caller.
use vstd::arithmetic::power2::{lemma2_to64, lemma_pow2_pos, lemma_pow2_unfold, pow2};
use vstd::prelude::*;
use vstd::string::*;

use crate::name_map::{has_name, lemma_place_of, place_of, value_of, NameMap};
use crate::text::{from_chars, slice_chars, to_chars};

verus! {

// ─── Errors ──────────────────────────────────────────────────────────────────

/// Why a formula has no value.
#[derive(Debug)]
pub enum FormulaError {
    /// A character that no formula has in this place.
    UnexpectedChar(char),
    /// The formula stops where a value must follow.
    UnexpectedEnd,
    /// A variable that has no value.
    UndefinedVariable(String),
    /// A token that cannot stand where it stands.
    UnexpectedToken(String),
}

/// What a `FormulaError` stands for.
pub enum Fault {
    UnexpectedChar(char),
    UnexpectedEnd,
    UndefinedVariable(Seq<char>),
    UnexpectedToken(Seq<char>),
}

impl DeepView for FormulaError {
    type V = Fault;

    open spec fn deep_view(&self) -> Fault {
        match self {
            FormulaError::UnexpectedChar(c) => Fault::UnexpectedChar(*c),
            FormulaError::UnexpectedEnd => Fault::UnexpectedEnd,
            FormulaError::UndefinedVariable(name) => Fault::UndefinedVariable(name@),
            FormulaError::UnexpectedToken(what) => Fault::UnexpectedToken(what@),
        }
    }
}

impl FormulaError {
    /// The error as a message.
    pub fn message(&self) -> (out: String)
        ensures
            out@ == fault_text(self.deep_view()),
    {
        let mut out = String::new();
        match self {
            FormulaError::UnexpectedChar(c) => {
                out.append("unexpected character: '");
                out.push(*c);
                out.append("'");
                assert(out@ =~= fault_text(self.deep_view()));
            },
            FormulaError::UnexpectedEnd => {
                out.append("unexpected end of expression");
                assert(out@ =~= fault_text(self.deep_view()));
            },
            FormulaError::UndefinedVariable(name) => {
                out.append("undefined variable: '");
                out.append(name.as_str());
                out.append("'");
                assert(out@ =~= fault_text(self.deep_view()));
            },
            FormulaError::UnexpectedToken(what) => {
                out.append("unexpected token: ");
                out.append(what.as_str());
                assert(out@ =~= fault_text(self.deep_view()));
            },
        }
        out
    }
}

/// What an error says.
pub open spec fn fault_text(fault: Fault) -> Seq<char> {
    match fault {
        Fault::UnexpectedChar(c) => "unexpected character: '"@ + seq![c] + "'"@,
        Fault::UnexpectedEnd => "unexpected end of expression"@,
        Fault::UndefinedVariable(name) => "undefined variable: '"@ + name + "'"@,
        Fault::UnexpectedToken(what) => "unexpected token: "@ + what,
    }
}

// ─── Tokens ──────────────────────────────────────────────────────────────────

/// A token of a formula; `S` is the type of its text.
#[derive(Debug)]
pub enum TokenOf<S> {
    Number(S),
    Ident(S),
    Plus,
    Minus,
    Star,
    Slash,
    LShift,
    RShift,
    LParen,
    RParen,
}

/// A token.
pub type Token = TokenOf<String>;

/// What a token stands for.
pub type Lexeme = TokenOf<Seq<char>>;

impl DeepView for TokenOf<String> {
    type V = TokenOf<Seq<char>>;

    open spec fn deep_view(&self) -> TokenOf<Seq<char>> {
        match self {
            TokenOf::Number(text) => TokenOf::Number(text@),
            TokenOf::Ident(text) => TokenOf::Ident(text@),
            TokenOf::Plus => TokenOf::Plus,
            TokenOf::Minus => TokenOf::Minus,
            TokenOf::Star => TokenOf::Star,
            TokenOf::Slash => TokenOf::Slash,
            TokenOf::LShift => TokenOf::LShift,
            TokenOf::RShift => TokenOf::RShift,
            TokenOf::LParen => TokenOf::LParen,
            TokenOf::RParen => TokenOf::RParen,
        }
    }
}

pub open spec fn is_blank(c: char) -> bool {
    c == ' ' || c == '\t' || c == '\n' || c == '\r'
}

pub open spec fn is_digit(c: char) -> bool {
    '0' <= c <= '9'
}

/// A character that a number can start with.
pub open spec fn starts_number(c: char) -> bool {
    is_digit(c) || c == '.'
}

/// A character that can go on a number.
pub open spec fn in_number(c: char) -> bool {
    is_digit(c) || c == '.' || c == 'e' || c == 'E'
}

/// A character that a name can start with.
pub open spec fn starts_name(c: char) -> bool {
    'a' <= c <= 'z' || 'A' <= c <= 'Z' || c == '_'
}

/// A character that can go on a name.
pub open spec fn in_name(c: char) -> bool {
    starts_name(c) || is_digit(c)
}

/// The operators and brackets of one character.
pub open spec fn single_char_token(c: char) -> Option<Lexeme> {
    if c == '+' {
        Some(TokenOf::Plus)
    } else if c == '-' {
        Some(TokenOf::Minus)
    } else if c == '*' {
        Some(TokenOf::Star)
    } else if c == '/' {
        Some(TokenOf::Slash)
    } else if c == '(' {
        Some(TokenOf::LParen)
    } else if c == ')' {
        Some(TokenOf::RParen)
    } else {
        None
    }
}

/// How many characters at the front have the property.
pub open spec fn run_length(s: Seq<char>, property: spec_fn(char) -> bool) -> nat
    decreases s.len(),
{
    if s.len() > 0 && property(s[0]) {
        1 + run_length(s.drop_first(), property)
    } else {
        0
    }
}

pub proof fn lemma_run_length(s: Seq<char>, property: spec_fn(char) -> bool)
    ensures
        run_length(s, property) <= s.len(),
        forall|i: int| 0 <= i < run_length(s, property) ==> property(#[trigger] s[i]),
        run_length(s, property) < s.len() ==> !property(s[run_length(s, property) as int]),
    decreases s.len(),
{
    if s.len() > 0 && property(s[0]) {
        let rest = s.drop_first();
        lemma_run_length(rest, property);
        assert forall|i: int| 0 <= i < run_length(s, property) implies property(
            #[trigger] s[i],
        ) by {
            if i > 0 {
                assert(rest[i - 1] == s[i]);
            }
        }
    }
}

/// Whether every character is a digit, and there is one.
pub open spec fn all_digits(s: Seq<char>) -> bool {
    s.len() > 0 && forall|i: int| 0 <= i < s.len() ==> is_digit(#[trigger] s[i])
}

/// Digits with at most one point among them, and at least one digit.
pub open spec fn is_mantissa(s: Seq<char>) -> bool {
    &&& exists|i: int| 0 <= i < s.len() && is_digit(#[trigger] s[i])
    &&& forall|i: int| 0 <= i < s.len() ==> is_digit(#[trigger] s[i]) || s[i] == '.'
    &&& forall|i: int, j: int|
        0 <= i < j < s.len() ==> !((#[trigger] s[i]) == '.' && (#[trigger] s[j]) == '.')
}

/// A decimal number: a mantissa, and after an `e` or `E` an exponent.
pub open spec fn is_number(s: Seq<char>) -> bool {
    let cut = run_length(s, |c: char| c != 'e' && c != 'E') as int;
    is_mantissa(s.take(cut)) && (cut == s.len() || all_digits(s.skip(cut + 1)))
}

/// One token in front of the tokens of the rest.
pub open spec fn before(token: Lexeme, rest: Result<Seq<Lexeme>, Fault>) -> Result<
    Seq<Lexeme>,
    Fault,
> {
    match rest {
        Ok(tokens) => Ok(seq![token] + tokens),
        Err(fault) => Err(fault),
    }
}

/// The tokens of a text, or what is wrong with the first part of it that is
/// no token.
pub open spec fn tokens_of(s: Seq<char>) -> Result<Seq<Lexeme>, Fault>
    decreases s.len(),
{
    if s.len() == 0 {
        Ok(Seq::empty())
    } else if is_blank(s[0]) {
        tokens_of(s.skip(1))
    } else if single_char_token(s[0]) is Some {
        before(single_char_token(s[0])->0, tokens_of(s.skip(1)))
    } else if s[0] == '<' || s[0] == '>' {
        if s.len() > 1 && s[1] == s[0] {
            before(
                if s[0] == '<' {
                    TokenOf::LShift
                } else {
                    TokenOf::RShift
                },
                tokens_of(s.skip(2)),
            )
        } else {
            Err(Fault::UnexpectedChar(s[0]))
        }
    } else if starts_number(s[0]) {
        let n = run_length(s, |c: char| in_number(c)) as int;
        let text = s.take(n);
        proof {
            lemma_run_length(s, |c: char| in_number(c));
        }
        if is_number(text) {
            before(TokenOf::Number(text), tokens_of(s.skip(n)))
        } else {
            Err(Fault::UnexpectedToken(text))
        }
    } else if starts_name(s[0]) {
        let n = run_length(s, |c: char| in_name(c)) as int;
        proof {
            lemma_run_length(s, |c: char| in_name(c));
        }
        before(TokenOf::Ident(s.take(n)), tokens_of(s.skip(n)))
    } else {
        Err(Fault::UnexpectedChar(s[0]))
    }
}

/// Tokens already read in front of what the rest gives.
spec fn after(done: Seq<Lexeme>, rest: Result<Seq<Lexeme>, Fault>) -> Result<Seq<Lexeme>, Fault> {
    match rest {
        Ok(tokens) => Ok(done + tokens),
        Err(fault) => Err(fault),
    }
}

proof fn lemma_after_before(done: Seq<Lexeme>, token: Lexeme, rest: Result<Seq<Lexeme>, Fault>)
    ensures
        after(done, before(token, rest)) == after(done.push(token), rest),
{
    match rest {
        Ok(tokens) => {
            assert(done + (seq![token] + tokens) =~= done.push(token) + tokens);
        },
        Err(_) => {},
    }
}

fn number_run(s: &Vec<char>, from: usize) -> (to: usize)
    requires
        from <= s.len(),
    ensures
        from <= to <= s.len(),
        to - from == run_length(s@.skip(from as int), |c: char| in_number(c)),
{
    let ghost property = |c: char| in_number(c);
    let mut to = from;
    while to < s.len() && (('0' <= s[to] && s[to] <= '9') || s[to] == '.' || s[to] == 'e' || s[to]
        == 'E')
        invariant
            property == (|c: char| in_number(c)),
            from <= to <= s.len(),
            run_length(s@.skip(from as int), property) == (to - from) + run_length(
                s@.skip(to as int),
                property,
            ),
        decreases s.len() - to,
    {
        assert(s@.skip(to as int).drop_first() =~= s@.skip(to + 1));
        assert(property(s@.skip(to as int)[0]));
        to += 1;
    }
    proof {
        if to < s.len() {
            assert(!property(s@.skip(to as int)[0]));
        }
    }
    to
}

fn name_run(s: &Vec<char>, from: usize) -> (to: usize)
    requires
        from <= s.len(),
    ensures
        from <= to <= s.len(),
        to - from == run_length(s@.skip(from as int), |c: char| in_name(c)),
{
    let ghost property = |c: char| in_name(c);
    let mut to = from;
    while to < s.len() && (('a' <= s[to] && s[to] <= 'z') || ('A' <= s[to] && s[to] <= 'Z')
        || s[to] == '_' || ('0' <= s[to] && s[to] <= '9'))
        invariant
            property == (|c: char| in_name(c)),
            from <= to <= s.len(),
            run_length(s@.skip(from as int), property) == (to - from) + run_length(
                s@.skip(to as int),
                property,
            ),
        decreases s.len() - to,
    {
        assert(s@.skip(to as int).drop_first() =~= s@.skip(to + 1));
        assert(property(s@.skip(to as int)[0]));
        to += 1;
    }
    proof {
        if to < s.len() {
            assert(!property(s@.skip(to as int)[0]));
        }
    }
    to
}

/// Whether a text is a decimal number.
pub fn check_number(s: &Vec<char>) -> (b: bool)
    ensures
        b == is_number(s@),
{
    let ghost property = |c: char| c != 'e' && c != 'E';
    let mut cut: usize = 0;
    let mut digits: usize = 0;
    let mut points: usize = 0;
    let mut other: bool = false;
    assert(s@.skip(0) =~= s@);
    while cut < s.len() && s[cut] != 'e' && s[cut] != 'E'
        invariant
            property == (|c: char| c != 'e' && c != 'E'),
            cut <= s.len(),
            run_length(s@, property) == cut + run_length(s@.skip(cut as int), property),
            digits <= cut,
            points <= cut,
            digits > 0 <==> exists|i: int| 0 <= i < cut && is_digit(#[trigger] s@[i]),
            points > 0 <==> exists|i: int| 0 <= i < cut && (#[trigger] s@[i]) == '.',
            points > 1 <==> exists|i: int, j: int|
                0 <= i < j < cut && (#[trigger] s@[i]) == '.' && (#[trigger] s@[j]) == '.',
            other <==> exists|i: int| 0 <= i < cut && !is_digit(#[trigger] s@[i]) && s@[i] != '.',
        decreases s.len() - cut,
    {
        assert(s@.skip(cut as int).drop_first() =~= s@.skip(cut + 1));
        assert(property(s@.skip(cut as int)[0]));
        let c = s[cut];
        if '0' <= c && c <= '9' {
            digits += 1;
            assert(is_digit(s@[cut as int]));
        } else if c == '.' {
            points += 1;
            assert(s@[cut as int] == '.');
        } else {
            other = true;
            assert(!is_digit(s@[cut as int]));
        }
        cut += 1;
    }
    let ghost front = s@.take(cut as int);
    proof {
        if cut < s.len() {
            assert(!property(s@.skip(cut as int)[0]));
        }
        assert(run_length(s@, property) == cut);
        assert(forall|i: int| 0 <= i < cut ==> front[i] == s@[i]);
    }
    if digits == 0 || points > 1 || other {
        proof {
            if is_mantissa(front) {
                if digits == 0 {
                    let i = choose|i: int| 0 <= i < front.len() && is_digit(#[trigger] front[i]);
                    assert(is_digit(s@[i]));
                } else if points > 1 {
                    let (i, j) = choose|i: int, j: int|
                        0 <= i < j < cut && (#[trigger] s@[i]) == '.' && (#[trigger] s@[j]) == '.';
                    assert(front[i] == '.' && front[j] == '.');
                } else {
                    let i = choose|i: int|
                        0 <= i < cut && !is_digit(#[trigger] s@[i]) && s@[i] != '.';
                    assert(!(is_digit(front[i]) || front[i] == '.'));
                }
            }
        }
        return false;
    }
    proof {
        assert(is_mantissa(front)) by {
            let i = choose|i: int| 0 <= i < cut && is_digit(#[trigger] s@[i]);
            assert(is_digit(front[i]));
            assert forall|i: int| 0 <= i < front.len() implies is_digit(#[trigger] front[i])
                || front[i] == '.' by {
                assert(is_digit(s@[i]) || s@[i] == '.');
            }
            assert forall|i: int, j: int| 0 <= i < j < front.len() implies !((#[trigger] front[i])
                == '.' && (#[trigger] front[j]) == '.') by {
                assert(!(s@[i] == '.' && s@[j] == '.'));
            }
        }
    }
    if cut == s.len() {
        return true;
    }
    let ghost tail = s@.skip(cut + 1);
    if cut + 1 == s.len() {
        return false;
    }
    for k in cut + 1..s.len()
        invariant
            cut + 1 <= k,
            cut + 1 < s.len(),
            tail == s@.skip(cut + 1),
            forall|i: int| 0 <= i < k - cut - 1 ==> is_digit(#[trigger] tail[i]),
            property == (|c: char| c != 'e' && c != 'E'),
            run_length(s@, property) == cut,
    {
        assert(tail[k - cut - 1] == s@[k as int]);
        if !('0' <= s[k] && s[k] <= '9') {
            return false;
        }
    }
    assert(forall|i: int| 0 <= i < tail.len() ==> is_digit(#[trigger] tail[i]));
    true
}

/// Cuts a formula into tokens.
pub fn tokenize(input: &str) -> (out: Result<Vec<Token>, FormulaError>)
    ensures
        match out {
            Ok(tokens) => tokens_of(input@) == Ok::<Seq<Lexeme>, Fault>(tokens.deep_view()),
            Err(e) => tokens_of(input@) == Err::<Seq<Lexeme>, Fault>(e.deep_view()),
        },
{
    let s = to_chars(input);
    let mut tokens: Vec<Token> = Vec::new();
    let mut at: usize = 0;
    proof {
        assert(s@.skip(0) =~= s@);
        assert(tokens.deep_view() =~= Seq::empty());
        match tokens_of(s@) {
            Ok(all) => {
                assert(Seq::<Lexeme>::empty() + all =~= all);
            },
            Err(_) => {},
        }
    }
    while at < s.len()
        invariant
            at <= s.len(),
            s@ == input@,
            tokens_of(s@) == after(tokens.deep_view(), tokens_of(s@.skip(at as int))),
        decreases s.len() - at,
    {
        let ghost rest = s@.skip(at as int);
        let ghost done = tokens.deep_view();
        let c = s[at];
        assert(rest[0] == c);
        assert(rest.skip(1) =~= s@.skip(at + 1));
        let mut single: Option<Token> = None;
        if c == '+' {
            single = Some(TokenOf::Plus);
        } else if c == '-' {
            single = Some(TokenOf::Minus);
        } else if c == '*' {
            single = Some(TokenOf::Star);
        } else if c == '/' {
            single = Some(TokenOf::Slash);
        } else if c == '(' {
            single = Some(TokenOf::LParen);
        } else if c == ')' {
            single = Some(TokenOf::RParen);
        }
        if c == ' ' || c == '\t' || c == '\n' || c == '\r' {
            at += 1;
        } else if let Some(token) = single {
            let ghost lexeme = token.deep_view();
            tokens.push(token);
            assert(tokens.deep_view() =~= done.push(lexeme));
            proof {
                lemma_after_before(done, lexeme, tokens_of(rest.skip(1)));
            }
            at += 1;
        } else if c == '<' || c == '>' {
            if at + 1 < s.len() && s[at + 1] == c {
                let token: Token = if c == '<' {
                    TokenOf::LShift
                } else {
                    TokenOf::RShift
                };
                let ghost lexeme = token.deep_view();
                tokens.push(token);
                proof {
                    assert(rest[1] == s@[at + 1]);
                    assert(rest.skip(2) =~= s@.skip(at + 2));
                    assert(tokens.deep_view() =~= done.push(lexeme));
                    lemma_after_before(done, lexeme, tokens_of(rest.skip(2)));
                }
                at += 2;
            } else {
                proof {
                    if rest.len() > 1 {
                        assert(rest[1] == s@[at + 1]);
                    }
                }
                return Err(FormulaError::UnexpectedChar(c));
            }
        } else if ('0' <= c && c <= '9') || c == '.' {
            let to = number_run(&s, at);
            let text = slice_chars(&s, at, to);
            let ghost n = to - at;
            proof {
                lemma_run_length(rest, |c: char| in_number(c));
                assert(text@ =~= rest.take(n));
                assert(rest.skip(n) =~= s@.skip(to as int));
            }
            if !check_number(&text) {
                return Err(FormulaError::UnexpectedToken(from_chars(&text)));
            }
            let ghost lexeme: Lexeme = TokenOf::Number(text@);
            tokens.push(TokenOf::Number(from_chars(&text)));
            proof {
                assert(tokens.deep_view() =~= done.push(lexeme));
                lemma_after_before(done, lexeme, tokens_of(rest.skip(n)));
            }
            at = to;
        } else if ('a' <= c && c <= 'z') || ('A' <= c && c <= 'Z') || c == '_' {
            let to = name_run(&s, at);
            let text = slice_chars(&s, at, to);
            let ghost n = to - at;
            proof {
                lemma_run_length(rest, |c: char| in_name(c));
                assert(text@ =~= rest.take(n));
                assert(rest.skip(n) =~= s@.skip(to as int));
            }
            let ghost lexeme: Lexeme = TokenOf::Ident(text@);
            tokens.push(TokenOf::Ident(from_chars(&text)));
            proof {
                assert(tokens.deep_view() =~= done.push(lexeme));
                lemma_after_before(done, lexeme, tokens_of(rest.skip(n)));
            }
            at = to;
        } else {
            return Err(FormulaError::UnexpectedChar(c));
        }
    }
    proof {
        assert(s@.skip(at as int).len() == 0);
        assert(tokens.deep_view() + Seq::<Lexeme>::empty() =~= tokens.deep_view());
    }
    Ok(tokens)
}

// ─── Expressions ─────────────────────────────────────────────────────────────

/// An operator between two values.
#[derive(Debug, Clone, Copy, PartialEq, Eq, Structural)]
pub enum BinaryOp {
    ShiftLeft,
    ShiftRight,
    Add,
    Subtract,
    Multiply,
    Divide,
}

/// An expression; `S` is the type of the texts in it.
#[derive(Debug)]
pub enum ExprOf<S> {
    Number(S),
    Variable(S),
    Negate(Box<ExprOf<S>>),
    Binary(BinaryOp, Box<ExprOf<S>>, Box<ExprOf<S>>),
}

/// An expression.
pub type Expr = ExprOf<String>;

/// What an expression stands for.
pub type Tree = ExprOf<Seq<char>>;

/// What an expression stands for.
pub open spec fn tree_of(e: Expr) -> Tree
    decreases e,
{
    match e {
        ExprOf::Number(text) => ExprOf::Number(text@),
        ExprOf::Variable(name) => ExprOf::Variable(name@),
        ExprOf::Negate(inner) => ExprOf::Negate(Box::new(tree_of(*inner))),
        ExprOf::Binary(op, lhs, rhs) => ExprOf::Binary(
            op,
            Box::new(tree_of(*lhs)),
            Box::new(tree_of(*rhs)),
        ),
    }
}

/// The operator that a token writes between two values.
pub open spec fn operator(token: Lexeme) -> Option<BinaryOp> {
    match token {
        TokenOf::LShift => Some(BinaryOp::ShiftLeft),
        TokenOf::RShift => Some(BinaryOp::ShiftRight),
        TokenOf::Plus => Some(BinaryOp::Add),
        TokenOf::Minus => Some(BinaryOp::Subtract),
        TokenOf::Star => Some(BinaryOp::Multiply),
        TokenOf::Slash => Some(BinaryOp::Divide),
        _ => None,
    }
}

/// How tightly an operator binds: shifts least, products most.
pub open spec fn level(op: BinaryOp) -> int {
    match op {
        BinaryOp::ShiftLeft | BinaryOp::ShiftRight => 0,
        BinaryOp::Add | BinaryOp::Subtract => 1,
        BinaryOp::Multiply | BinaryOp::Divide => 2,
    }
}

/// The level of the operator that stands at a place, or below all levels.
pub open spec fn level_at(tokens: Seq<Lexeme>, at: int) -> int {
    if 0 <= at < tokens.len() && operator(tokens[at]) is Some {
        level(operator(tokens[at])->0)
    } else {
        -1
    }
}

/// What reading gives: a tree and the place after it, or a fault.
pub type Reading = Result<(Tree, int), Fault>;

/// The name of a token that cannot start a value.
pub open spec fn token_name(token: Lexeme) -> Seq<char> {
    match token {
        TokenOf::Plus => "Plus"@,
        TokenOf::Star => "Star"@,
        TokenOf::Slash => "Slash"@,
        TokenOf::LShift => "LShift"@,
        TokenOf::RShift => "RShift"@,
        _ => "RParen"@,
    }
}

/// operand := number | variable | `-` operand | `(` chain of level 0 `)`
///
/// A variable must be one of the defined ones.
pub open spec fn operand(tokens: Seq<Lexeme>, at: int, defined: Set<Seq<char>>) -> Reading
    decreases tokens.len() - at, 0int,
{
    if at >= tokens.len() {
        Err(Fault::UnexpectedEnd)
    } else {
        match tokens[at] {
            TokenOf::Number(text) => Ok((ExprOf::Number(text), at + 1)),
            TokenOf::Ident(name) => if defined.contains(name) {
                Ok((ExprOf::Variable(name), at + 1))
            } else {
                Err(Fault::UndefinedVariable(name))
            },
            TokenOf::Minus => match operand(tokens, at + 1, defined) {
                Ok((inner, next)) => Ok((ExprOf::Negate(Box::new(inner)), next)),
                Err(fault) => Err(fault),
            },
            TokenOf::LParen => match chain(tokens, at + 1, 0, defined) {
                Ok((inner, next)) => if next < tokens.len() && tokens[next] == TokenOf::<
                    Seq<char>,
                >::RParen {
                    Ok((inner, next + 1))
                } else {
                    Err(Fault::UnexpectedToken("expected ')'"@))
                },
                Err(fault) => Err(fault),
            },
            other => Err(Fault::UnexpectedToken(token_name(other))),
        }
    }
}

/// chain of level n := chain of level n + 1, then any number of operators of
/// level n, each followed by a chain of level n + 1. Above the highest level
/// a chain is an operand. What is read is never empty, see `lemma_progress`.
pub open spec fn chain(tokens: Seq<Lexeme>, at: int, n: int, defined: Set<Seq<char>>) -> Reading
    decreases
            tokens.len() - at,
            if n > 2 {
                1
            } else {
                4 - n
            },
{
    if n > 2 {
        operand(tokens, at, defined)
    } else {
        match chain(tokens, at, n + 1, defined) {
            Ok((lhs, next)) => if at < next <= tokens.len() {
                links(tokens, next, n, lhs, defined)
            } else {
                Err(Fault::UnexpectedEnd)
            },
            Err(fault) => Err(fault),
        }
    }
}

/// The operators of level n that follow `lhs`, grouped from the left.
pub open spec fn links(
    tokens: Seq<Lexeme>,
    at: int,
    n: int,
    lhs: Tree,
    defined: Set<Seq<char>>,
) -> Reading
    decreases tokens.len() - at, 0int,
{
    if level_at(tokens, at) == n && 0 <= n {
        match chain(tokens, at + 1, n + 1, defined) {
            Ok((rhs, next)) => if at < next <= tokens.len() {
                links(
                    tokens,
                    next,
                    n,
                    ExprOf::Binary(operator(tokens[at])->0, Box::new(lhs), Box::new(rhs)),
                    defined,
                )
            } else {
                Err(Fault::UnexpectedEnd)
            },
            Err(fault) => Err(fault),
        }
    } else {
        Ok((lhs, at))
    }
}

/// What is read is never empty and never goes past the end.
pub proof fn lemma_progress(tokens: Seq<Lexeme>, at: int, n: int, lhs: Tree, defined: Set<Seq<char>>)
    ensures
        operand(tokens, at, defined) matches Ok((_, next)) ==> at < next <= tokens.len(),
        chain(tokens, at, n, defined) matches Ok((_, next)) ==> at < next <= tokens.len(),
        at <= tokens.len() ==> (links(tokens, at, n, lhs, defined) matches Ok((_, next)) ==> at
            <= next <= tokens.len()),
    decreases
            tokens.len() - at,
            if n > 2 {
                1
            } else {
                4 - n
            },
{
    if at < tokens.len() {
        lemma_progress(tokens, at + 1, 0, lhs, defined);
        lemma_progress(tokens, at + 1, n + 1, lhs, defined);
    }
    if n <= 2 {
        lemma_progress(tokens, at, n + 1, lhs, defined);
        match chain(tokens, at, n + 1, defined) {
            Ok((first, next)) => {
                lemma_progress(tokens, next, n, first, defined);
            },
            Err(_) => {},
        }
    }
    if level_at(tokens, at) == n && 0 <= n {
        match chain(tokens, at + 1, n + 1, defined) {
            Ok((rhs, next)) => {
                lemma_progress(
                    tokens,
                    next,
                    n,
                    ExprOf::Binary(operator(tokens[at])->0, Box::new(lhs), Box::new(rhs)),
                    defined,
                );
            },
            Err(_) => {},
        }
    }
}

/// A chain of level n stops before anything but an operator of level n or more.
proof fn lemma_chain_stops(tokens: Seq<Lexeme>, at: int, n: int, defined: Set<Seq<char>>)
    requires
        0 <= n <= 3,
    ensures
        chain(tokens, at, n, defined) matches Ok((_, next)) ==> level_at(tokens, next) < n,
    decreases
            tokens.len() - at,
            if n > 2 {
                1
            } else {
                4 - n
            },
{
    if n <= 2 {
        lemma_chain_stops(tokens, at, n + 1, defined);
        match chain(tokens, at, n + 1, defined) {
            Ok((lhs, next)) => {
                if at < next <= tokens.len() {
                    lemma_links_stop(tokens, next, n, lhs, defined);
                }
            },
            Err(_) => {},
        }
    }
}

proof fn lemma_links_stop(tokens: Seq<Lexeme>, at: int, n: int, lhs: Tree, defined: Set<Seq<char>>)
    requires
        0 <= n <= 2,
        level_at(tokens, at) <= n,
    ensures
        links(tokens, at, n, lhs, defined) matches Ok((_, next)) ==> level_at(tokens, next) < n,
    decreases tokens.len() - at, 0int,
{
    if level_at(tokens, at) == n {
        lemma_chain_stops(tokens, at + 1, n + 1, defined);
        match chain(tokens, at + 1, n + 1, defined) {
            Ok((rhs, next)) => {
                if at < next <= tokens.len() {
                    lemma_links_stop(
                        tokens,
                        next,
                        n,
                        ExprOf::Binary(operator(tokens[at])->0, Box::new(lhs), Box::new(rhs)),
                        defined,
                    );
                }
            },
            Err(_) => {},
        }
    }
}

/// The links of levels `high` down to `low` that follow `lhs`.
spec fn tail(
    tokens: Seq<Lexeme>,
    at: int,
    low: int,
    high: int,
    lhs: Tree,
    defined: Set<Seq<char>>,
) -> Reading
    decreases high - low + 1,
{
    if high < low {
        Ok((lhs, at))
    } else {
        match links(tokens, at, high, lhs, defined) {
            Ok((longer, next)) => tail(tokens, next, low, high - 1, longer, defined),
            Err(fault) => Err(fault),
        }
    }
}

/// The lowest level of a tail comes last.
proof fn lemma_tail_last(
    tokens: Seq<Lexeme>,
    at: int,
    low: int,
    high: int,
    lhs: Tree,
    defined: Set<Seq<char>>,
)
    requires
        low <= high,
    ensures
        tail(tokens, at, low, high, lhs, defined) == match tail(
            tokens,
            at,
            low + 1,
            high,
            lhs,
            defined,
        ) {
            Ok((longer, next)) => links(tokens, next, low, longer, defined),
            Err(fault) => Err(fault),
        },
    decreases high - low,
{
    match links(tokens, at, high, lhs, defined) {
        Ok((longer, next)) => {
            if low < high {
                lemma_tail_last(tokens, next, low, high - 1, longer, defined);
            } else {
                assert(tail(tokens, next, low, high - 1, longer, defined) == Ok::<
                    (Tree, int),
                    Fault,
                >((longer, next)));
            }
        },
        Err(_) => {
            if low < high {
            } else {
            }
        },
    }
}

/// A chain is an operand and the tail of links from the highest level down.
proof fn lemma_chain_is_tail(tokens: Seq<Lexeme>, at: int, n: int, defined: Set<Seq<char>>)
    requires
        0 <= n <= 3,
        0 <= at,
    ensures
        chain(tokens, at, n, defined) == match operand(tokens, at, defined) {
            Ok((first, next)) => tail(tokens, next, n, 2, first, defined),
            Err(fault) => Err(fault),
        },
    decreases 3 - n,
{
    if n <= 2 {
        lemma_chain_is_tail(tokens, at, n + 1, defined);
        match operand(tokens, at, defined) {
            Ok((first, next)) => {
                lemma_tail_last(tokens, next, n, 2, first, defined);
                lemma_progress(tokens, at, n + 1, first, defined);
            },
            Err(_) => {},
        }
    }
}

/// Levels above that of the next operator add no links.
proof fn lemma_tail_skip(
    tokens: Seq<Lexeme>,
    at: int,
    low: int,
    high: int,
    to: int,
    lhs: Tree,
    defined: Set<Seq<char>>,
)
    requires
        low - 1 <= to <= high <= 2,
        level_at(tokens, at) <= to,
    ensures
        tail(tokens, at, low, high, lhs, defined) == tail(tokens, at, low, to, lhs, defined),
    decreases high - to,
{
    if to < high {
        assert(links(tokens, at, high, lhs, defined) == Ok::<(Tree, int), Fault>((lhs, at)));
        lemma_tail_skip(tokens, at, low, high - 1, to, lhs, defined);
    }
}

// ─── Parser ──────────────────────────────────────────────────────────────────

/// The names that have a value.
pub open spec fn defined_names<V>(vars: Seq<(Seq<char>, V)>) -> Set<Seq<char>> {
    Set::new(|name: Seq<char>| has_name(vars, name))
}

struct Parser<'a, V> {
    tokens: &'a Vec<Token>,
    pos: usize,
    vars: &'a NameMap<V>,
}

/// The binding power that a prefix `-` asks of what follows.
const PREFIX_BP: u8 = 9;

/// The level of operators that a binding power lets in.
spec fn level_of_power(min_bp: u8) -> int {
    if min_bp <= 1 {
        0
    } else if min_bp <= 3 {
        1
    } else if min_bp <= 5 {
        2
    } else {
        3
    }
}

/// The operator of a token, with its binding powers to the left and right.
fn infix_binding_power(tok: &Token) -> (out: Option<(BinaryOp, u8, u8)>)
    ensures
        match out {
            Some((op, l, r)) => operator(tok.deep_view()) == Some(op) && l == 2 * level(op) + 1 && r
                == l + 1,
            None => operator(tok.deep_view()) is None,
        },
{
    match tok {
        TokenOf::LShift => Some((BinaryOp::ShiftLeft, 1, 2)),
        TokenOf::RShift => Some((BinaryOp::ShiftRight, 1, 2)),
        TokenOf::Plus => Some((BinaryOp::Add, 3, 4)),
        TokenOf::Minus => Some((BinaryOp::Subtract, 3, 4)),
        TokenOf::Star => Some((BinaryOp::Multiply, 5, 6)),
        TokenOf::Slash => Some((BinaryOp::Divide, 5, 6)),
        _ => None,
    }
}

/// Whether a parser's answer, and the place where it stands, is that reading.
spec fn answers(out: Result<Expr, FormulaError>, pos: usize, reading: Reading) -> bool {
    match out {
        Ok(e) => reading == Ok::<(Tree, int), Fault>((tree_of(e), pos as int)),
        Err(e) => reading == Err::<(Tree, int), Fault>(e.deep_view()),
    }
}

impl<'a, V> Parser<'a, V> {
    spec fn lexemes(self) -> Seq<Lexeme> {
        self.tokens.deep_view()
    }

    spec fn defined(self) -> Set<Seq<char>> {
        defined_names(self.vars@)
    }

    fn parse_expr(&mut self, min_bp: u8) -> (out: Result<Expr, FormulaError>)
        requires
            old(self).pos <= old(self).tokens.len(),
        ensures
            final(self).tokens == old(self).tokens,
            final(self).vars == old(self).vars,
            final(self).pos <= final(self).tokens.len(),
            answers(
                out,
                final(self).pos,
                chain(
                    old(self).lexemes(),
                    old(self).pos as int,
                    level_of_power(min_bp),
                    old(self).defined(),
                ),
            ),
        decreases old(self).tokens.len() - old(self).pos, 1int,
    {
        let ghost tokens = self.lexemes();
        let ghost defined = self.defined();
        let ghost start = self.pos as int;
        let ghost low = level_of_power(min_bp);
        let ghost whole = chain(tokens, start, low, defined);
        proof {
            lemma_chain_is_tail(tokens, start, low, defined);
        }
        let mut lhs = match self.parse_prefix() {
            Ok(e) => e,
            Err(e) => {
                return Err(e);
            },
        };
        proof {
            lemma_progress(tokens, start, low, tree_of(lhs), defined);
        }
        loop
            invariant_except_break
                whole == tail(tokens, self.pos as int, low, 2, tree_of(lhs), defined),
            invariant
                tokens == self.lexemes(),
                defined == self.defined(),
                self.tokens == old(self).tokens,
                self.vars == old(self).vars,
                low == level_of_power(min_bp),
                0 <= low <= 3,
                start < self.pos <= self.tokens.len(),
                start == old(self).pos,
                whole == chain(tokens, start, low, defined),
            ensures
                whole == Ok::<(Tree, int), Fault>((tree_of(lhs), self.pos as int)),
            decreases self.tokens.len() - self.pos,
        {
            let ghost at = self.pos as int;
            if self.pos == self.tokens.len() {
                proof {
                    lemma_tail_skip(tokens, at, low, 2, low - 1, tree_of(lhs), defined);
                }
                break;
            }
            assert(tokens[at] == self.tokens[at].deep_view());
            let (op, l_bp, r_bp) = match infix_binding_power(&self.tokens[self.pos]) {
                Some(found) => found,
                None => {
                    proof {
                        lemma_tail_skip(tokens, at, low, 2, low - 1, tree_of(lhs), defined);
                    }
                    break;
                },
            };
            let ghost n = level(op);
            if l_bp < min_bp {
                proof {
                    lemma_tail_skip(tokens, at, low, 2, low - 1, tree_of(lhs), defined);
                }
                break;
            }
            proof {
                lemma_tail_skip(tokens, at, low, 2, n, tree_of(lhs), defined);
                lemma_chain_stops(tokens, at + 1, n + 1, defined);
                lemma_progress(tokens, at + 1, n + 1, tree_of(lhs), defined);
            }
            self.pos += 1;
            let rhs = match self.parse_expr(r_bp) {
                Ok(e) => e,
                Err(e) => {
                    return Err(e);
                },
            };
            let ghost old_lhs = tree_of(lhs);
            lhs = ExprOf::Binary(op, Box::new(lhs), Box::new(rhs));
            proof {
                let grown: Tree = ExprOf::Binary(
                    op,
                    Box::new(old_lhs),
                    Box::new(tree_of(rhs)),
                );
                assert(tree_of(lhs) == grown);
                assert(links(tokens, at, n, old_lhs, defined) == links(
                    tokens,
                    self.pos as int,
                    n,
                    grown,
                    defined,
                ));
                lemma_tail_skip(tokens, self.pos as int, low, 2, n, grown, defined);
            }
        }
        Ok(lhs)
    }

    fn parse_prefix(&mut self) -> (out: Result<Expr, FormulaError>)
        requires
            old(self).pos <= old(self).tokens.len(),
        ensures
            final(self).tokens == old(self).tokens,
            final(self).vars == old(self).vars,
            final(self).pos <= final(self).tokens.len(),
            answers(
                out,
                final(self).pos,
                operand(old(self).lexemes(), old(self).pos as int, old(self).defined()),
            ),
        decreases old(self).tokens.len() - old(self).pos, 0int,
    {
        let ghost tokens = self.lexemes();
        let ghost defined = self.defined();
        let ghost at = self.pos as int;
        if self.pos >= self.tokens.len() {
            return Err(FormulaError::UnexpectedEnd);
        }
        let all = self.tokens;
        let tok = &all[self.pos];
        assert(tokens[at] == tok.deep_view());
        self.pos += 1;
        match tok {
            TokenOf::Number(text) => Ok(ExprOf::Number(text.clone())),
            TokenOf::Ident(name) => {
                if self.vars.contains_key(name.as_str()) {
                    Ok(ExprOf::Variable(name.clone()))
                } else {
                    Err(FormulaError::UndefinedVariable(name.clone()))
                }
            },
            TokenOf::Minus => {
                proof {
                    lemma_chain_is_tail(tokens, at + 1, 3, defined);
                }
                match self.parse_expr(PREFIX_BP) {
                    Ok(inner) => Ok(ExprOf::Negate(Box::new(inner))),
                    Err(e) => Err(e),
                }
            },
            TokenOf::LParen => {
                match self.parse_expr(0) {
                    Ok(inner) => {
                        if self.pos < self.tokens.len() {
                            let close = &all[self.pos];
                            assert(tokens[self.pos as int] == close.deep_view());
                            if let TokenOf::RParen = close {
                                self.pos += 1;
                                return Ok(inner);
                            }
                        }
                        Err(FormulaError::UnexpectedToken("expected ')'".to_owned()))
                    },
                    Err(e) => Err(e),
                }
            },
            TokenOf::Plus => Err(FormulaError::UnexpectedToken("Plus".to_owned())),
            TokenOf::Star => Err(FormulaError::UnexpectedToken("Star".to_owned())),
            TokenOf::Slash => Err(FormulaError::UnexpectedToken("Slash".to_owned())),
            TokenOf::LShift => Err(FormulaError::UnexpectedToken("LShift".to_owned())),
            TokenOf::RShift => Err(FormulaError::UnexpectedToken("RShift".to_owned())),
            TokenOf::RParen => Err(FormulaError::UnexpectedToken("RParen".to_owned())),
        }
    }
}

/// The expression that a formula writes, read from its front; what follows it
/// is not looked at.
pub open spec fn formula_of(text: Seq<char>, defined: Set<Seq<char>>) -> Result<Tree, Fault> {
    match tokens_of(text) {
        Ok(tokens) => match chain(tokens, 0, 0, defined) {
            Ok((tree, _)) => Ok(tree),
            Err(fault) => Err(fault),
        },
        Err(fault) => Err(fault),
    }
}

/// Reads a formula whose variables are names of `vars`.
pub fn parse<V>(expr: &str, vars: &NameMap<V>) -> (out: Result<Expr, FormulaError>)
    ensures
        match out {
            Ok(e) => formula_of(expr@, defined_names(vars@)) == Ok::<Tree, Fault>(tree_of(e)),
            Err(e) => formula_of(expr@, defined_names(vars@)) == Err::<Tree, Fault>(e.deep_view()),
        },
{
    let tokens = match tokenize(expr) {
        Ok(tokens) => tokens,
        Err(e) => {
            return Err(e);
        },
    };
    let mut parser = Parser { tokens: &tokens, pos: 0, vars };
    parser.parse_expr(0)
}

// ─── Evaluation ──────────────────────────────────────────────────────────────

/// The arithmetic that an evaluation uses.
pub struct Arithmetic<T, L, N, B, Z, I, W> {
    /// The value of a number's text.
    pub literal: L,
    /// The negative of a value.
    pub negate: N,
    /// The sum, difference, product or quotient of two values.
    pub binary: B,
    /// Whether a value is zero.
    pub is_zero: Z,
    /// The integer part of a value.
    pub to_integer: I,
    /// The value of an integer.
    pub from_integer: W,
    /// What a division by zero comes to.
    pub undefined: T,
}

/// Whether the arithmetic has an answer to everything.
pub open spec fn arithmetic_total<
    T,
    L: Fn(&str) -> T,
    N: Fn(T) -> T,
    B: Fn(BinaryOp, T, T) -> T,
    Z: Fn(T) -> bool,
    I: Fn(T) -> i64,
    W: Fn(i64) -> T,
>(arithmetic: Arithmetic<T, L, N, B, Z, I, W>) -> bool {
    &&& forall|text: &str| call_requires(arithmetic.literal, (text,))
    &&& forall|v: T| call_requires(arithmetic.negate, (v,))
    &&& forall|op: BinaryOp, a: T, b: T| call_requires(arithmetic.binary, (op, a, b))
    &&& forall|v: T| call_requires(arithmetic.is_zero, (v,))
    &&& forall|v: T| call_requires(arithmetic.to_integer, (v,))
    &&& forall|n: i64| call_requires(arithmetic.from_integer, (n,))
}

/// An integer shifted by another, which counts modulo the width.
pub open spec fn shifted(op: BinaryOp, n: i64, by: i64) -> i64 {
    let places = by % 64;
    if op == BinaryOp::ShiftLeft {
        n << places
    } else {
        n >> places
    }
}

/// Whether an operator takes two values to a third. A division by zero comes
/// to the undefined value; shifts go by the integer parts.
pub open spec fn applies<
    T,
    L: Fn(&str) -> T,
    N: Fn(T) -> T,
    B: Fn(BinaryOp, T, T) -> T,
    Z: Fn(T) -> bool,
    I: Fn(T) -> i64,
    W: Fn(i64) -> T,
>(arithmetic: Arithmetic<T, L, N, B, Z, I, W>, op: BinaryOp, a: T, b: T, value: T) -> bool {
    match op {
        BinaryOp::Add | BinaryOp::Subtract | BinaryOp::Multiply => call_ensures(
            arithmetic.binary,
            (op, a, b),
            value,
        ),
        BinaryOp::Divide => {
            ||| call_ensures(arithmetic.is_zero, (b,), true) && value == arithmetic.undefined
            ||| call_ensures(arithmetic.is_zero, (b,), false) && call_ensures(
                arithmetic.binary,
                (op, a, b),
                value,
            )
        },
        BinaryOp::ShiftLeft | BinaryOp::ShiftRight => exists|m: i64, n: i64|
            #![trigger shifted(op, m, n)]
            call_ensures(arithmetic.to_integer, (a,), m) && call_ensures(
                arithmetic.to_integer,
                (b,),
                n,
            ) && call_ensures(arithmetic.from_integer, (shifted(op, m, n),), value),
    }
}

fn shift(op: BinaryOp, n: i64, by: i64) -> (out: i64)
    requires
        level(op) == 0,
    ensures
        out == shifted(op, n, by),
{
    let places: i64 = by & 63;
    assert(0 <= by & 63 && by & 63 < 64 && by & 63 == by % 64) by (bit_vector);
    match op {
        BinaryOp::ShiftLeft => n << places,
        _ => n >> places,
    }
}

/// Applies an operator to two values.
pub fn apply_binop<
    T: Copy,
    L: Fn(&str) -> T,
    N: Fn(T) -> T,
    B: Fn(BinaryOp, T, T) -> T,
    Z: Fn(T) -> bool,
    I: Fn(T) -> i64,
    W: Fn(i64) -> T,
>(arithmetic: &Arithmetic<T, L, N, B, Z, I, W>, op: BinaryOp, lhs: T, rhs: T) -> (value: T)
    requires
        arithmetic_total(*arithmetic),
    ensures
        applies(*arithmetic, op, lhs, rhs, value),
{
    match op {
        BinaryOp::Add | BinaryOp::Subtract | BinaryOp::Multiply => {
            let value = (arithmetic.binary)(op, lhs, rhs);
            value
        },
        BinaryOp::Divide => {
            if (arithmetic.is_zero)(rhs) {
                arithmetic.undefined
            } else {
                let value = (arithmetic.binary)(op, lhs, rhs);
                value
            }
        },
        BinaryOp::ShiftLeft | BinaryOp::ShiftRight => {
            let m = (arithmetic.to_integer)(lhs);
            let n = (arithmetic.to_integer)(rhs);
            let value = (arithmetic.from_integer)(shift(op, m, n));
            value
        },
    }
}

/// Whether a tree comes to a value: a number to what `literal` says of its
/// text, a variable to its value, and everything else to what the operations
/// say of the values of its parts.
pub open spec fn comes_to<
    T,
    L: Fn(&str) -> T,
    N: Fn(T) -> T,
    B: Fn(BinaryOp, T, T) -> T,
    Z: Fn(T) -> bool,
    I: Fn(T) -> i64,
    W: Fn(i64) -> T,
>(
    tree: Tree,
    vars: Seq<(Seq<char>, T)>,
    arithmetic: Arithmetic<T, L, N, B, Z, I, W>,
    value: T,
) -> bool
    decreases tree,
{
    match tree {
        ExprOf::Number(digits) => exists|text: &str|
            text@ == digits && #[trigger] call_ensures(arithmetic.literal, (text,), value),
        ExprOf::Variable(name) => value_of(vars, name) == Some(value),
        ExprOf::Negate(inner) => exists|v: T|
            comes_to(*inner, vars, arithmetic, v) && #[trigger] call_ensures(
                arithmetic.negate,
                (v,),
                value,
            ),
        ExprOf::Binary(op, lhs, rhs) => exists|a: T, b: T|
            comes_to(*lhs, vars, arithmetic, a) && comes_to(*rhs, vars, arithmetic, b)
                && #[trigger] applies(arithmetic, op, a, b, value),
    }
}

/// Whether every variable of a tree has a value.
pub open spec fn variables_in(tree: Tree, defined: Set<Seq<char>>) -> bool
    decreases tree,
{
    match tree {
        ExprOf::Number(_) => true,
        ExprOf::Variable(name) => defined.contains(name),
        ExprOf::Negate(inner) => variables_in(*inner, defined),
        ExprOf::Binary(_, lhs, rhs) => variables_in(*lhs, defined) && variables_in(*rhs, defined),
    }
}

/// Evaluates an expression.
pub fn evaluate_expr<
    T: Copy,
    L: Fn(&str) -> T,
    N: Fn(T) -> T,
    B: Fn(BinaryOp, T, T) -> T,
    Z: Fn(T) -> bool,
    I: Fn(T) -> i64,
    W: Fn(i64) -> T,
>(
    expr: &Expr,
    vars: &NameMap<T>,
    arithmetic: &Arithmetic<T, L, N, B, Z, I, W>,
) -> (value: T)
    requires
        arithmetic_total(*arithmetic),
        variables_in(tree_of(*expr), defined_names(vars@)),
    ensures
        comes_to(tree_of(*expr), vars@, *arithmetic, value),
    decreases expr,
{
    match expr {
        ExprOf::Number(text) => {
            let digits = text.as_str();
            let value = (arithmetic.literal)(digits);
            assert(digits@ == text@ && call_ensures(arithmetic.literal, (digits,), value));
            value
        },
        ExprOf::Variable(name) => {
            let value = *vars.get(name.as_str()).unwrap();
            value
        },
        ExprOf::Negate(inner) => {
            let v = evaluate_expr(&**inner, vars, arithmetic);
            let value = (arithmetic.negate)(v);
            assert(call_ensures(arithmetic.negate, (v,), value));
            value
        },
        ExprOf::Binary(op, lhs, rhs) => {
            let a = evaluate_expr(&**lhs, vars, arithmetic);
            let b = evaluate_expr(&**rhs, vars, arithmetic);
            let value = apply_binop(arithmetic, *op, a, b);
            assert(applies(*arithmetic, *op, a, b, value));
            value
        },
    }
}

/// Every variable of what is read is defined.
proof fn lemma_variables_defined(
    tokens: Seq<Lexeme>,
    at: int,
    n: int,
    lhs: Tree,
    defined: Set<Seq<char>>,
)
    ensures
        operand(tokens, at, defined) matches Ok((tree, _)) ==> variables_in(tree, defined),
        chain(tokens, at, n, defined) matches Ok((tree, _)) ==> variables_in(tree, defined),
        variables_in(lhs, defined) ==> (links(tokens, at, n, lhs, defined) matches Ok((tree, _))
            ==> variables_in(tree, defined)),
    decreases
            tokens.len() - at,
            if n > 2 {
                1
            } else {
                4 - n
            },
{
    if at < tokens.len() {
        lemma_variables_defined(tokens, at + 1, 0, lhs, defined);
        lemma_variables_defined(tokens, at + 1, n + 1, lhs, defined);
    }
    if n <= 2 {
        lemma_variables_defined(tokens, at, n + 1, lhs, defined);
        match chain(tokens, at, n + 1, defined) {
            Ok((first, next)) => {
                if at < next <= tokens.len() {
                    lemma_variables_defined(tokens, next, n, first, defined);
                }
            },
            Err(_) => {},
        }
    }
    if level_at(tokens, at) == n && 0 <= n && variables_in(lhs, defined) {
        match chain(tokens, at + 1, n + 1, defined) {
            Ok((rhs, next)) => {
                if at < next <= tokens.len() {
                    let grown: Tree = ExprOf::Binary(
                        operator(tokens[at])->0,
                        Box::new(lhs),
                        Box::new(rhs),
                    );
                    assert(variables_in(grown, defined));
                    lemma_variables_defined(tokens, next, n, grown, defined);
                }
            },
            Err(_) => {},
        }
    }
}

/// A formula that can be read speaks of defined variables only.
pub proof fn law_variables_defined(text: Seq<char>, defined: Set<Seq<char>>)
    ensures
        formula_of(text, defined) matches Ok(tree) ==> variables_in(tree, defined),
{
    match tokens_of(text) {
        Ok(tokens) => {
            lemma_variables_defined(
                tokens,
                0,
                0,
                ExprOf::Number(Seq::empty()),
                defined,
            );
        },
        Err(_) => {},
    }
}

/// Evaluates a formula over the given variables.
pub fn evaluate<
    T: Copy,
    L: Fn(&str) -> T,
    N: Fn(T) -> T,
    B: Fn(BinaryOp, T, T) -> T,
    Z: Fn(T) -> bool,
    I: Fn(T) -> i64,
    W: Fn(i64) -> T,
>(
    expr: &str,
    vars: &NameMap<T>,
    arithmetic: &Arithmetic<T, L, N, B, Z, I, W>,
) -> (out: Result<T, FormulaError>)
    requires
        arithmetic_total(*arithmetic),
    ensures
        match (out, formula_of(expr@, defined_names(vars@))) {
            (Ok(value), Ok(tree)) => comes_to(tree, vars@, *arithmetic, value),
            (Err(e), Err(fault)) => e.deep_view() == fault,
            _ => false,
        },
{
    match parse(expr, vars) {
        Ok(tree) => {
            proof {
                law_variables_defined(expr@, defined_names(vars@));
            }
            Ok(evaluate_expr(&tree, vars, arithmetic))
        },
        Err(e) => Err(e),
    }
}

// ─── Writing expressions down ────────────────────────────────────────────────

/// The token of an operator.
pub open spec fn operator_token(op: BinaryOp) -> Lexeme {
    match op {
        BinaryOp::ShiftLeft => TokenOf::LShift,
        BinaryOp::ShiftRight => TokenOf::RShift,
        BinaryOp::Add => TokenOf::Plus,
        BinaryOp::Subtract => TokenOf::Minus,
        BinaryOp::Multiply => TokenOf::Star,
        BinaryOp::Divide => TokenOf::Slash,
    }
}

/// A tree in brackets.
pub open spec fn bracketed(tree: Tree) -> Seq<Lexeme>
    decreases tree, 1int,
{
    seq![TokenOf::LParen] + written(tree) + seq![TokenOf::RParen]
}

/// The tokens of a tree, with every part that is not a number or a variable
/// in brackets.
pub open spec fn written(tree: Tree) -> Seq<Lexeme>
    decreases tree, 0int,
{
    match tree {
        ExprOf::Number(text) => seq![TokenOf::Number(text)],
        ExprOf::Variable(name) => seq![TokenOf::Ident(name)],
        ExprOf::Negate(inner) => seq![TokenOf::Minus] + bracketed(*inner),
        ExprOf::Binary(op, lhs, rhs) => bracketed(*lhs) + seq![operator_token(op)] + bracketed(
            *rhs,
        ),
    }
}

/// Whether `part` stands in `tokens` at a place.
spec fn stands_at(tokens: Seq<Lexeme>, at: int, part: Seq<Lexeme>) -> bool {
    0 <= at && at + part.len() <= tokens.len() && tokens.subrange(at, at + part.len()) == part
}

proof fn lemma_stands_split(tokens: Seq<Lexeme>, at: int, a: Seq<Lexeme>, b: Seq<Lexeme>)
    requires
        stands_at(tokens, at, a + b),
    ensures
        stands_at(tokens, at, a),
        stands_at(tokens, at + a.len(), b),
{
    let ab = a + b;
    assert(tokens.subrange(at, at + a.len()) =~= a) by {
        assert forall|i: int| 0 <= i < a.len() implies tokens[at + i] == a[i] by {
            assert(tokens.subrange(at, at + ab.len())[i] == ab[i]);
        }
    }
    assert(tokens.subrange(at + a.len(), at + a.len() + b.len()) =~= b) by {
        assert forall|i: int| 0 <= i < b.len() implies tokens[at + a.len() + i] == b[i] by {
            assert(tokens.subrange(at, at + ab.len())[a.len() + i] == ab[a.len() + i]);
        }
    }
}

proof fn lemma_stands_first(tokens: Seq<Lexeme>, at: int, token: Lexeme)
    requires
        stands_at(tokens, at, seq![token]),
    ensures
        at < tokens.len(),
        tokens[at] == token,
{
    assert(tokens.subrange(at, at + 1)[0] == tokens[at]);
    assert(seq![token][0] == token);
}

/// A bracketed tree is read back as one operand.
proof fn lemma_bracketed_read(tokens: Seq<Lexeme>, at: int, tree: Tree, defined: Set<Seq<char>>)
    requires
        variables_in(tree, defined),
        stands_at(tokens, at, bracketed(tree)),
    ensures
        operand(tokens, at, defined) == Ok::<(Tree, int), Fault>(
            (tree, at + bracketed(tree).len()),
        ),
    decreases tree, 1int,
{
    let w = written(tree);
    let open: Seq<Lexeme> = seq![TokenOf::LParen];
    let close: Seq<Lexeme> = seq![TokenOf::RParen];
    lemma_stands_split(tokens, at, open + w, close);
    lemma_stands_split(tokens, at, open, w);
    lemma_stands_first(tokens, at, TokenOf::LParen);
    lemma_stands_first(tokens, at + 1 + w.len(), TokenOf::RParen);
    lemma_written_read(tokens, at + 1, tree, defined);
}

/// A written tree is read back where no operator follows it.
proof fn lemma_written_read(tokens: Seq<Lexeme>, at: int, tree: Tree, defined: Set<Seq<char>>)
    requires
        variables_in(tree, defined),
        stands_at(tokens, at, written(tree)),
        level_at(tokens, at + written(tree).len()) < 0,
    ensures
        chain(tokens, at, 0, defined) == Ok::<(Tree, int), Fault>(
            (tree, at + written(tree).len()),
        ),
    decreases tree, 0int,
{
    let end = at + written(tree).len();
    lemma_chain_is_tail(tokens, at, 0, defined);
    match tree {
        ExprOf::Number(text) => {
            lemma_stands_first(tokens, at, TokenOf::Number(text));
            lemma_tail_skip(tokens, end, 0, 2, -1, tree, defined);
        },
        ExprOf::Variable(name) => {
            lemma_stands_first(tokens, at, TokenOf::Ident(name));
            lemma_tail_skip(tokens, end, 0, 2, -1, tree, defined);
        },
        ExprOf::Negate(inner) => {
            let minus: Seq<Lexeme> = seq![TokenOf::Minus];
            lemma_stands_split(tokens, at, minus, bracketed(*inner));
            lemma_stands_first(tokens, at, TokenOf::Minus);
            lemma_bracketed_read(tokens, at + 1, *inner, defined);
            lemma_tail_skip(tokens, end, 0, 2, -1, tree, defined);
        },
        ExprOf::Binary(op, lhs, rhs) => {
            let sign = seq![operator_token(op)];
            let left = bracketed(*lhs);
            let n = level(op);
            let mid = at + left.len();
            lemma_stands_split(tokens, at, left + sign, bracketed(*rhs));
            lemma_stands_split(tokens, at, left, sign);
            lemma_stands_first(tokens, mid, operator_token(op));
            lemma_bracketed_read(tokens, at, *lhs, defined);
            lemma_bracketed_read(tokens, mid + 1, *rhs, defined);
            lemma_tail_skip(tokens, mid, 0, 2, n, *lhs, defined);
            lemma_chain_is_tail(tokens, mid + 1, n + 1, defined);
            lemma_tail_skip(tokens, end, n + 1, 2, n, *rhs, defined);
            lemma_tail_skip(tokens, end, 0, n, -1, tree, defined);
            assert(links(tokens, mid, n, *lhs, defined) == links(tokens, end, n, tree, defined));
        },
    }
}

/// Every expression over defined variables can be written down so that
/// reading gives it back.
pub proof fn law_written_read_back(tree: Tree, defined: Set<Seq<char>>)
    requires
        variables_in(tree, defined),
    ensures
        chain(written(tree), 0, 0, defined) == Ok::<(Tree, int), Fault>(
            (tree, written(tree).len() as int),
        ),
{
    let w = written(tree);
    assert(w.subrange(0, w.len() as int) =~= w);
    lemma_written_read(w, 0, tree, defined);
}

/// Of two operators the one that binds more tightly takes its values first; of
/// two that bind alike it is the left one.
pub proof fn law_precedence(
    a: Seq<char>,
    first: BinaryOp,
    b: Seq<char>,
    second: BinaryOp,
    c: Seq<char>,
    defined: Set<Seq<char>>,
)
    ensures
        ({
            let (x, y, z): (Tree, Tree, Tree) = (
                ExprOf::Number(a),
                ExprOf::Number(b),
                ExprOf::Number(c),
            );
            chain(
                seq![
                    TokenOf::Number(a),
                    operator_token(first),
                    TokenOf::Number(b),
                    operator_token(second),
                    TokenOf::Number(c),
                ],
                0,
                0,
                defined,
            ) == Ok::<(Tree, int), Fault>(
                (
                    if level(first) < level(second) {
                        ExprOf::Binary(
                            first,
                            Box::new(x),
                            Box::new(ExprOf::Binary(second, Box::new(y), Box::new(z))),
                        )
                    } else {
                        ExprOf::Binary(
                            second,
                            Box::new(ExprOf::Binary(first, Box::new(x), Box::new(y))),
                            Box::new(z),
                        )
                    },
                    5,
                ),
            )
        }),
{
    let tokens: Seq<Lexeme> = seq![
        TokenOf::Number(a),
        operator_token(first),
        TokenOf::Number(b),
        operator_token(second),
        TokenOf::Number(c),
    ];
    let (x, y, z): (Tree, Tree, Tree) = (ExprOf::Number(a), ExprOf::Number(b), ExprOf::Number(c));
    let (m, n) = (level(first), level(second));
    assert(level_at(tokens, 1) == m && level_at(tokens, 3) == n && level_at(tokens, 5) == -1);
    lemma_chain_is_tail(tokens, 0, 0, defined);
    lemma_tail_skip(tokens, 1, 0, 2, m, x, defined);
    lemma_chain_is_tail(tokens, 2, m + 1, defined);
    lemma_chain_is_tail(tokens, 4, n + 1, defined);
    lemma_tail_skip(tokens, 5, n + 1, 2, n, z, defined);
    if m < n {
        let right: Tree = ExprOf::Binary(second, Box::new(y), Box::new(z));
        let whole: Tree = ExprOf::Binary(first, Box::new(x), Box::new(right));
        lemma_tail_skip(tokens, 3, m + 1, 2, n, y, defined);
        assert(links(tokens, 3, n, y, defined) == links(tokens, 5, n, right, defined));
        lemma_tail_skip(tokens, 5, m + 1, n - 1, m, right, defined);
        assert(links(tokens, 1, m, x, defined) == links(tokens, 5, m, whole, defined));
        lemma_tail_skip(tokens, 5, 0, m, -1, whole, defined);
    } else {
        let left: Tree = ExprOf::Binary(first, Box::new(x), Box::new(y));
        let whole: Tree = ExprOf::Binary(second, Box::new(left), Box::new(z));
        lemma_tail_skip(tokens, 3, m + 1, 2, m, y, defined);
        assert(links(tokens, 1, m, x, defined) == links(tokens, 3, m, left, defined));
        lemma_tail_skip(tokens, 3, 0, m, n, left, defined);
        assert(links(tokens, 3, n, left, defined) == links(tokens, 5, n, whole, defined));
        lemma_tail_skip(tokens, 5, 0, n, -1, whole, defined);
    }
}

// ─── Formulas as they are written ────────────────────────────────────────────

/// A formula with the brackets that stand in it.
pub enum Syntax {
    Number(Seq<char>),
    Variable(Seq<char>),
    Negate(Box<Syntax>),
    Binary(BinaryOp, Box<Syntax>, Box<Syntax>),
    Bracket(Box<Syntax>),
}

/// The sign of an operator.
pub open spec fn sign(op: BinaryOp) -> Lexeme {
    match op {
        BinaryOp::ShiftLeft => TokenOf::LShift,
        BinaryOp::ShiftRight => TokenOf::RShift,
        BinaryOp::Add => TokenOf::Plus,
        BinaryOp::Subtract => TokenOf::Minus,
        BinaryOp::Multiply => TokenOf::Star,
        BinaryOp::Divide => TokenOf::Slash,
    }
}

/// Whether a token is the sign of an operator.
pub open spec fn is_sign(token: Lexeme) -> bool {
    token is LShift || token is RShift || token is Plus || token is Minus || token is Star
        || token is Slash
}

/// How tightly an operator holds its values: shifts least, then sums and
/// differences, then products and quotients.
pub open spec fn grip(op: BinaryOp) -> int {
    match op {
        BinaryOp::ShiftLeft | BinaryOp::ShiftRight => 0,
        BinaryOp::Add | BinaryOp::Subtract => 1,
        BinaryOp::Multiply | BinaryOp::Divide => 2,
    }
}

impl Syntax {
    /// The tokens of a formula.
    pub open spec fn tokens(self) -> Seq<Lexeme>
        decreases self,
    {
        match self {
            Syntax::Number(text) => seq![TokenOf::Number(text)],
            Syntax::Variable(name) => seq![TokenOf::Ident(name)],
            Syntax::Negate(inner) => seq![TokenOf::<Seq<char>>::Minus] + inner.tokens(),
            Syntax::Binary(op, lhs, rhs) => lhs.tokens() + (seq![sign(op)] + rhs.tokens()),
            Syntax::Bracket(inner) => seq![TokenOf::<Seq<char>>::LParen] + (inner.tokens() + seq![
                TokenOf::<Seq<char>>::RParen,
            ]),
        }
    }

    /// What the formula means: brackets only keep things together.
    pub open spec fn tree(self) -> Tree
        decreases self,
    {
        match self {
            Syntax::Number(text) => ExprOf::Number(text),
            Syntax::Variable(name) => ExprOf::Variable(name),
            Syntax::Negate(inner) => ExprOf::Negate(Box::new(inner.tree())),
            Syntax::Binary(op, lhs, rhs) => ExprOf::Binary(
                op,
                Box::new(lhs.tree()),
                Box::new(rhs.tree()),
            ),
            Syntax::Bracket(inner) => inner.tree(),
        }
    }

    /// How tightly a formula holds together. A minus sign holds its value more
    /// tightly than any operator between two.
    pub open spec fn hold(self) -> int {
        match self {
            Syntax::Binary(op, _, _) => grip(op),
            _ => 3,
        }
    }

    /// Whether every part stands where it needs no brackets: the value of a
    /// minus sign is no operation, the left value of an operator holds at least
    /// as tightly as it, the right one more tightly. Variables must be defined.
    pub open spec fn proper(self, defined: Set<Seq<char>>) -> bool
        decreases self,
    {
        match self {
            Syntax::Number(_) => true,
            Syntax::Variable(name) => defined.contains(name),
            Syntax::Negate(inner) => inner.hold() == 3 && inner.proper(defined),
            Syntax::Binary(op, lhs, rhs) => lhs.hold() >= grip(op) && rhs.hold() > grip(op)
                && lhs.proper(defined) && rhs.proper(defined),
            Syntax::Bracket(inner) => inner.proper(defined),
        }
    }
}

proof fn lemma_sign(op: BinaryOp)
    ensures
        operator(sign(op)) == Some(op),
        level(op) == grip(op),
        0 <= grip(op) <= 2,
{
}

/// A formula that holds together tightly is read as one operand.
proof fn lemma_operand_read(tokens: Seq<Lexeme>, at: int, s: Syntax, defined: Set<Seq<char>>)
    requires
        s.proper(defined),
        s.hold() == 3,
        stands_at(tokens, at, s.tokens()),
    ensures
        operand(tokens, at, defined) == Ok::<(Tree, int), Fault>(
            (s.tree(), at + s.tokens().len()),
        ),
        s.tokens().len() > 0,
    decreases s, 0int,
{
    match s {
        Syntax::Number(text) => {
            lemma_stands_first(tokens, at, TokenOf::Number(text));
        },
        Syntax::Variable(name) => {
            lemma_stands_first(tokens, at, TokenOf::Ident(name));
        },
        Syntax::Negate(inner) => {
            let minus: Seq<Lexeme> = seq![TokenOf::Minus];
            lemma_stands_split(tokens, at, minus, inner.tokens());
            lemma_stands_first(tokens, at, TokenOf::Minus);
            lemma_operand_read(tokens, at + 1, *inner, defined);
        },
        Syntax::Bracket(inner) => {
            let open: Seq<Lexeme> = seq![TokenOf::LParen];
            let close: Seq<Lexeme> = seq![TokenOf::RParen];
            let end = at + 1 + inner.tokens().len();
            lemma_stands_split(tokens, at, open, inner.tokens() + close);
            lemma_stands_split(tokens, at + 1, inner.tokens(), close);
            lemma_stands_first(tokens, at, TokenOf::LParen);
            lemma_stands_first(tokens, end, TokenOf::RParen);
            lemma_chain_read(tokens, at + 1, *inner, 0, defined);
        },
        Syntax::Binary(_, _, _) => {
            assert(false);
        },
    }
}

/// A formula that holds together at least as tightly as a level is read by the
/// chain of that level, which goes on with the links behind it.
proof fn lemma_chain_read(tokens: Seq<Lexeme>, at: int, s: Syntax, n: int, defined: Set<Seq<char>>)
    requires
        s.proper(defined),
        0 <= n <= 2,
        n <= s.hold(),
        stands_at(tokens, at, s.tokens()),
        level_at(tokens, at + s.tokens().len()) <= n,
    ensures
        chain(tokens, at, n, defined) == links(
            tokens,
            at + s.tokens().len(),
            n,
            s.tree(),
            defined,
        ),
        s.tokens().len() > 0,
    decreases s, 3 - n,
{
    let end = at + s.tokens().len();
    if s.hold() > n {
        if n == 2 {
            if s.hold() == 3 {
                lemma_operand_read(tokens, at, s, defined);
            }
        } else {
            lemma_chain_read(tokens, at, s, n + 1, defined);
        }
    } else {
        match s {
            Syntax::Binary(op, lhs, rhs) => {
                let here: Seq<Lexeme> = seq![sign(op)];
                let mid = at + lhs.tokens().len();
                lemma_sign(op);
                lemma_stands_split(tokens, at, lhs.tokens(), here + rhs.tokens());
                lemma_stands_split(tokens, mid, here, rhs.tokens());
                lemma_stands_first(tokens, mid, sign(op));
                assert(level_at(tokens, mid) == n);
                lemma_chain_read(tokens, at, *lhs, n, defined);
                if n == 2 {
                    lemma_operand_read(tokens, mid + 1, *rhs, defined);
                } else {
                    lemma_chain_read(tokens, mid + 1, *rhs, n + 1, defined);
                }
                assert(chain(tokens, mid + 1, n + 1, defined) == Ok::<(Tree, int), Fault>(
                    (rhs.tree(), end),
                ));
            },
            _ => {
                assert(false);
            },
        }
    }
}

/// A formula is read as it is written, with unary minus before every operator
/// between two values, products and quotients before sums and differences, these
/// before shifts, operators that hold alike from the left, and brackets before
/// all; it ends where no operator follows.
pub proof fn law_formula_read(s: Syntax, rest: Seq<Lexeme>, defined: Set<Seq<char>>)
    requires
        s.proper(defined),
        rest.len() == 0 || !is_sign(rest[0]),
    ensures
        chain(s.tokens() + rest, 0, 0, defined) == Ok::<(Tree, int), Fault>(
            (s.tree(), s.tokens().len() as int),
        ),
{
    let tokens = s.tokens() + rest;
    assert(tokens.subrange(0, s.tokens().len() as int) =~= s.tokens());
    assert(level_at(tokens, s.tokens().len() as int) == -1);
    lemma_chain_read(tokens, 0, s, 0, defined);
}

/// What an operation between two formulas is made of.
proof fn lemma_operation(op: BinaryOp, lhs: Syntax, rhs: Syntax, defined: Set<Seq<char>>)
    ensures
        ({
            let s = Syntax::Binary(op, Box::new(lhs), Box::new(rhs));
            &&& s.tokens() == lhs.tokens() + (seq![sign(op)] + rhs.tokens())
            &&& s.tree() == ExprOf::Binary(op, Box::new(lhs.tree()), Box::new(rhs.tree()))
            &&& s.hold() == grip(op)
            &&& s.proper(defined) == (lhs.hold() >= grip(op) && rhs.hold() > grip(op)
                && lhs.proper(defined) && rhs.proper(defined))
        }),
{
}

/// A formula is read from its tokens alone.
proof fn lemma_alone_read(s: Syntax, defined: Set<Seq<char>>)
    requires
        s.proper(defined),
    ensures
        chain(s.tokens(), 0, 0, defined) == Ok::<(Tree, int), Fault>(
            (s.tree(), s.tokens().len() as int),
        ),
{
    law_formula_read(s, Seq::empty(), defined);
    assert(s.tokens() + Seq::empty() =~= s.tokens());
}

/// A minus sign takes the value next to it and nothing more, whatever operator
/// follows; and it may stand behind an operator.
pub proof fn law_unary_minus(
    a: Syntax,
    first: BinaryOp,
    b: Syntax,
    second: BinaryOp,
    c: Syntax,
    defined: Set<Seq<char>>,
)
    requires
        a.proper(defined) && a.hold() == 3,
        b.proper(defined) && b.hold() == 3,
        c.proper(defined) && c.hold() == 3,
    ensures
        ({
            let minus: Seq<Lexeme> = seq![TokenOf::Minus];
            let (x, y, z) = (a.tree(), b.tree(), c.tree());
            let negative: Tree = ExprOf::Negate(Box::new(y));
            &&& chain(minus + b.tokens() + seq![sign(second)] + c.tokens(), 0, 0, defined) matches Ok(
                (tree, _),
            ) && tree == ExprOf::Binary(second, Box::new(negative), Box::new(z))
            &&& chain(
                a.tokens() + seq![sign(first)] + minus + b.tokens() + seq![sign(second)]
                    + c.tokens(),
                0,
                0,
                defined,
            ) matches Ok((tree, _)) && tree == if grip(first) < grip(second) {
                let right: Tree = ExprOf::Binary(second, Box::new(negative), Box::new(z));
                ExprOf::Binary(first, Box::new(x), Box::new(right))
            } else {
                let left: Tree = ExprOf::Binary(first, Box::new(x), Box::new(negative));
                ExprOf::Binary(second, Box::new(left), Box::new(z))
            }
        }),
{
    let minus: Seq<Lexeme> = seq![TokenOf::Minus];
    let n = Syntax::Negate(Box::new(b));
    let short = Syntax::Binary(second, Box::new(n), Box::new(c));
    let left = Syntax::Binary(first, Box::new(a), Box::new(n));
    assert(n.tokens() == minus + b.tokens());
    assert(n.tree() == ExprOf::Negate(Box::new(b.tree())));
    assert(n.proper(defined) && n.hold() == 3);
    lemma_sign(first);
    lemma_sign(second);
    lemma_operation(second, n, c, defined);
    lemma_alone_read(short, defined);
    assert(short.tokens() =~= minus + b.tokens() + seq![sign(second)] + c.tokens());
    lemma_operation(first, a, n, defined);
    lemma_operation(first, a, short, defined);
    lemma_operation(second, left, c, defined);
    let whole = a.tokens() + seq![sign(first)] + minus + b.tokens() + seq![sign(second)]
        + c.tokens();
    if grip(first) < grip(second) {
        let long = Syntax::Binary(first, Box::new(a), Box::new(short));
        lemma_alone_read(long, defined);
        assert(long.tokens() =~= whole);
    } else {
        let long = Syntax::Binary(second, Box::new(left), Box::new(c));
        lemma_alone_read(long, defined);
        assert(long.tokens() =~= whole);
    }
}

/// Whether tokens fail to start with a value, and how.
pub open spec fn lacks_value(tokens: Seq<Lexeme>, defined: Set<Seq<char>>, fault: Fault) -> bool {
    if tokens.len() == 0 {
        fault == Fault::UnexpectedEnd
    } else {
        match tokens[0] {
            TokenOf::Ident(name) => !defined.contains(name) && fault == Fault::UndefinedVariable(
                name,
            ),
            TokenOf::Plus => fault == Fault::UnexpectedToken("Plus"@),
            TokenOf::Star => fault == Fault::UnexpectedToken("Star"@),
            TokenOf::Slash => fault == Fault::UnexpectedToken("Slash"@),
            TokenOf::LShift => fault == Fault::UnexpectedToken("LShift"@),
            TokenOf::RShift => fault == Fault::UnexpectedToken("RShift"@),
            TokenOf::RParen => fault == Fault::UnexpectedToken("RParen"@),
            _ => false,
        }
    }
}

/// Above the highest level a chain is an operand.
proof fn lemma_chain_top(tokens: Seq<Lexeme>, at: int, defined: Set<Seq<char>>)
    ensures
        chain(tokens, at, 3, defined) == operand(tokens, at, defined),
{
}

proof fn lemma_chain_fails(tokens: Seq<Lexeme>, at: int, n: int, m: int, defined: Set<Seq<char>>)
    requires
        n <= m <= 3,
        chain(tokens, at, m, defined) is Err,
    ensures
        chain(tokens, at, n, defined) == chain(tokens, at, m, defined),
    decreases m - n,
{
    if n < m {
        lemma_chain_fails(tokens, at, n + 1, m, defined);
    }
}

/// A formula must start with a value, a minus sign and an operator must be
/// followed by one, and an opened bracket must be closed.
pub proof fn law_formula_faults(
    s: Syntax,
    op: BinaryOp,
    rest: Seq<Lexeme>,
    defined: Set<Seq<char>>,
    fault: Fault,
)
    requires
        s.proper(defined),
        s.hold() >= grip(op),
    ensures
        lacks_value(rest, defined, fault) ==> {
            &&& chain(rest, 0, 0, defined) == Err::<(Tree, int), Fault>(fault)
            &&& chain(seq![TokenOf::<Seq<char>>::Minus] + rest, 0, 0, defined) == Err::<
                (Tree, int),
                Fault,
            >(fault)
            &&& chain(seq![TokenOf::<Seq<char>>::LParen] + rest, 0, 0, defined) == Err::<
                (Tree, int),
                Fault,
            >(fault)
            &&& chain(s.tokens() + (seq![sign(op)] + rest), 0, 0, defined) == Err::<
                (Tree, int),
                Fault,
            >(fault)
        },
        rest.len() == 0 || (!is_sign(rest[0]) && !(rest[0] is RParen)) ==> chain(
            seq![TokenOf::<Seq<char>>::LParen] + (s.tokens() + rest),
            0,
            0,
            defined,
        ) == Err::<(Tree, int), Fault>(Fault::UnexpectedToken("expected ')'"@)),
{
    if lacks_value(rest, defined, fault) {
        let minus = seq![TokenOf::<Seq<char>>::Minus] + rest;
        let open = seq![TokenOf::<Seq<char>>::LParen] + rest;
        let tokens = s.tokens() + (seq![sign(op)] + rest);
        let (n, mid) = (grip(op), s.tokens().len() as int);
        assert(rest.len() > 0 ==> minus[1] == rest[0] && open[1] == rest[0]);
        lemma_chain_top(rest, 0, defined);
        lemma_chain_top(minus, 0, defined);
        lemma_chain_top(open, 0, defined);
        lemma_chain_top(open, 1, defined);
        lemma_chain_top(tokens, mid + 1, defined);
        assert(operand(rest, 0, defined) == Err::<(Tree, int), Fault>(fault));
        lemma_chain_fails(rest, 0, 0, 3, defined);
        assert(operand(minus, 1, defined) == Err::<(Tree, int), Fault>(fault));
        lemma_chain_fails(minus, 0, 0, 3, defined);
        assert(operand(open, 1, defined) == Err::<(Tree, int), Fault>(fault));
        lemma_chain_fails(open, 1, 0, 3, defined);
        lemma_chain_fails(open, 0, 0, 3, defined);
        lemma_sign(op);
        assert(tokens.subrange(0, mid) =~= s.tokens());
        assert(tokens[mid] == sign(op));
        assert(rest.len() > 0 ==> tokens[mid + 1] == rest[0]);
        lemma_chain_read(tokens, 0, s, n, defined);
        assert(operand(tokens, mid + 1, defined) == Err::<(Tree, int), Fault>(fault));
        lemma_chain_fails(tokens, mid + 1, n + 1, 3, defined);
        lemma_chain_fails(tokens, 0, 0, n, defined);
    }
    if rest.len() == 0 || (!is_sign(rest[0]) && !(rest[0] is RParen)) {
        let tokens = seq![TokenOf::<Seq<char>>::LParen] + (s.tokens() + rest);
        let end = 1 + s.tokens().len() as int;
        assert(tokens.subrange(1, end) =~= s.tokens());
        assert(rest.len() > 0 ==> tokens[end] == rest[0]);
        assert(tokens[0] is LParen);
        lemma_chain_read(tokens, 1, s, 0, defined);
        lemma_chain_top(tokens, 0, defined);
        assert(operand(tokens, 0, defined) is Err);
        lemma_chain_fails(tokens, 0, 0, 3, defined);
    }
}

/// What is read tells what a formula is and what is wrong with it.
pub proof fn law_parse<V>(
    expr: &str,
    vars: &NameMap<V>,
    s: Syntax,
    rest: Seq<Lexeme>,
    defined: Set<Seq<char>>,
    out: Result<Expr, FormulaError>,
)
    requires
        call_ensures(parse::<V>, (expr, vars), out),
        forall|name: Seq<char>| #[trigger]
            defined.contains(name) <==> exists|i: int|
                0 <= i < vars@.len() && (#[trigger] vars@[i]).0 == name,
        s.proper(defined),
        rest.len() == 0 || !is_sign(rest[0]),
    ensures
        tokens_of(expr@) == Ok::<Seq<Lexeme>, Fault>(s.tokens() + rest) ==> (out matches Ok(e)
            && tree_of(e) == s.tree()),
        tokens_of(expr@) matches Err(fault) ==> (out matches Err(e) && e.deep_view() == fault),
{
    law_formula_read(s, rest, defined);
    assert(defined =~= defined_names(vars@));
}

// ─── Values of formulas as they are written ──────────────────────────────────

/// Whether an operator gives a value for two others.
pub open spec fn gives<
    T,
    L: Fn(&str) -> T,
    N: Fn(T) -> T,
    B: Fn(BinaryOp, T, T) -> T,
    Z: Fn(T) -> bool,
    I: Fn(T) -> i64,
    W: Fn(i64) -> T,
>(arithmetic: Arithmetic<T, L, N, B, Z, I, W>, op: BinaryOp, a: T, b: T, value: T) -> bool {
    match op {
        BinaryOp::Add => call_ensures(arithmetic.binary, (BinaryOp::Add, a, b), value),
        BinaryOp::Subtract => call_ensures(arithmetic.binary, (BinaryOp::Subtract, a, b), value),
        BinaryOp::Multiply => call_ensures(arithmetic.binary, (BinaryOp::Multiply, a, b), value),
        BinaryOp::Divide => if value == arithmetic.undefined && call_ensures(
            arithmetic.is_zero,
            (b,),
            true,
        ) {
            true
        } else {
            call_ensures(arithmetic.is_zero, (b,), false) && call_ensures(
                arithmetic.binary,
                (BinaryOp::Divide, a, b),
                value,
            )
        },
        _ => exists|m: i64, n: i64, k: i64|
            #![trigger moved(op, m, n, k)]
            call_ensures(arithmetic.to_integer, (a,), m) && call_ensures(
                arithmetic.to_integer,
                (b,),
                n,
            ) && call_ensures(arithmetic.from_integer, (k,), value) && moved(op, m, n, k),
    }
}

/// Whether an integer is another one moved by some places, counted modulo
/// sixty-four: each place to the left doubles it, with what does not fit cut
/// off, and each place to the right halves it, rounding down.
pub open spec fn moved(op: BinaryOp, from: i64, places: i64, to: i64) -> bool {
    let factor = pow2((places % 64) as nat) as int;
    match op {
        BinaryOp::ShiftLeft => (from * factor - to) % 0x1_0000_0000_0000_0000 == 0,
        _ => to == (from as int) / factor,
    }
}

proof fn lemma_moved_left(from: i64, n: u64)
    requires
        n < 64,
    ensures
        (from * pow2(n as nat) - (from << n)) % 0x1_0000_0000_0000_0000 == 0,
    decreases n,
{
    if n == 0 {
        lemma2_to64();
        assert(from << 0u64 == from) by (bit_vector);
        assert(from * 1 == from);
    } else {
        let m = (n - 1) as u64;
        lemma_moved_left(from, m);
        let x = from << m;
        let y = from << n;
        assert(y == x << 1u64) by (bit_vector)
            requires
                1 <= n < 64,
                m == n - 1,
                x == from << m,
                y == from << n,
        ;
        assert((x << 1u64) == 2 * x || (x << 1u64) == 2 * x - 0x1_0000_0000_0000_0000 || (x
            << 1u64) == 2 * x + 0x1_0000_0000_0000_0000) by (bit_vector);
        lemma_pow2_unfold(n as nat);
        let f = pow2(m as nat) as int;
        let (d, e) = (from * f - x, from * (2 * f) - y);
        assert(from * (2 * f) == 2 * (from * f)) by (nonlinear_arith);
        lemma_double_modulo(d, e);
        assert(pow2(n as nat) == 2 * f);
        assert(e == from * pow2(n as nat) - (from << n));
    }
}

proof fn lemma_double_modulo(d: int, e: int)
    requires
        d % 0x1_0000_0000_0000_0000 == 0,
        e == 2 * d || e == 2 * d + 0x1_0000_0000_0000_0000 || e == 2 * d
            - 0x1_0000_0000_0000_0000,
    ensures
        e % 0x1_0000_0000_0000_0000 == 0,
{
}

proof fn lemma_moved_right(from: i64, n: u64)
    requires
        n < 64,
    ensures
        (from >> n) == (from as int) / (pow2(n as nat) as int),
    decreases n,
{
    if n == 0 {
        lemma2_to64();
        assert(from >> 0u64 == from) by (bit_vector);
    } else {
        let m = (n - 1) as u64;
        lemma_moved_right(from, m);
        let x = from >> m;
        let y = from >> n;
        assert(y == x >> 1u64) by (bit_vector)
            requires
                1 <= n < 64,
                m == n - 1,
                x == from >> m,
                y == from >> n,
        ;
        assert(2 * (x >> 1u64) <= x && x <= 2 * (x >> 1u64) + 1) by (bit_vector);
        lemma_pow2_unfold(n as nat);
        lemma_pow2_pos(m as nat);
        let f = pow2(m as nat) as int;
        let r = (from as int) % f;
        vstd::arithmetic::div_mod::lemma_fundamental_div_mod(from as int, f);
        let rest = f * (x - 2 * y) + r;
        assert(0 <= rest < 2 * f) by (nonlinear_arith)
            requires
                rest == f * (x - 2 * y) + r,
                0 <= r < f,
                0 <= x - 2 * y <= 1,
        ;
        assert(from == (2 * f) * y + rest) by (nonlinear_arith)
            requires
                from == f * x + r,
                rest == f * (x - 2 * y) + r,
        ;
        assert((2 * f) * y == y * (2 * f)) by (nonlinear_arith);
        vstd::arithmetic::div_mod::lemma_fundamental_div_mod_converse(
            from as int,
            2 * f,
            y as int,
            rest,
        );
    }
}

/// Whether a formula is worth a value: what its parts are worth, put together
/// as it is written.
pub open spec fn worth<
    T,
    L: Fn(&str) -> T,
    N: Fn(T) -> T,
    B: Fn(BinaryOp, T, T) -> T,
    Z: Fn(T) -> bool,
    I: Fn(T) -> i64,
    W: Fn(i64) -> T,
>(
    s: Syntax,
    vars: Seq<(Seq<char>, T)>,
    arithmetic: Arithmetic<T, L, N, B, Z, I, W>,
    value: T,
) -> bool
    decreases s,
{
    match s {
        Syntax::Number(digits) => exists|text: &str|
            text@ == digits && #[trigger] call_ensures(arithmetic.literal, (text,), value),
        Syntax::Variable(name) => exists|i: int|
            0 <= i < vars.len() && #[trigger] vars[i] == (name, value),
        Syntax::Negate(inner) => exists|v: T|
            worth(*inner, vars, arithmetic, v) && #[trigger] call_ensures(
                arithmetic.negate,
                (v,),
                value,
            ),
        Syntax::Binary(op, lhs, rhs) => exists|a: T, b: T|
            worth(*lhs, vars, arithmetic, a) && worth(*rhs, vars, arithmetic, b)
                && #[trigger] gives(arithmetic, op, a, b, value),
        Syntax::Bracket(inner) => worth(*inner, vars, arithmetic, value),
    }
}

pub(crate) proof fn lemma_worth<
    T,
    L: Fn(&str) -> T,
    N: Fn(T) -> T,
    B: Fn(BinaryOp, T, T) -> T,
    Z: Fn(T) -> bool,
    I: Fn(T) -> i64,
    W: Fn(i64) -> T,
>(
    s: Syntax,
    vars: Seq<(Seq<char>, T)>,
    arithmetic: Arithmetic<T, L, N, B, Z, I, W>,
    value: T,
)
    requires
        comes_to(s.tree(), vars, arithmetic, value),
    ensures
        worth(s, vars, arithmetic, value),
    decreases s,
{
    match s {
        Syntax::Number(_) => {},
        Syntax::Variable(name) => {
            lemma_place_of(vars, name);
            let i = place_of(vars, name) as int;
            assert(vars[i] == (name, value));
        },
        Syntax::Negate(inner) => {
            let v = choose|v: T|
                comes_to(inner.tree(), vars, arithmetic, v) && #[trigger] call_ensures(
                    arithmetic.negate,
                    (v,),
                    value,
                );
            lemma_worth(*inner, vars, arithmetic, v);
        },
        Syntax::Binary(op, lhs, rhs) => {
            let (a, b) = choose|a: T, b: T|
                comes_to(lhs.tree(), vars, arithmetic, a) && comes_to(
                    rhs.tree(),
                    vars,
                    arithmetic,
                    b,
                ) && #[trigger] applies(arithmetic, op, a, b, value);
            lemma_worth(*lhs, vars, arithmetic, a);
            lemma_worth(*rhs, vars, arithmetic, b);
            lemma_gives(arithmetic, op, a, b, value);
        },
        Syntax::Bracket(inner) => {
            lemma_worth(*inner, vars, arithmetic, value);
        },
    }
}

proof fn lemma_gives<
    T,
    L: Fn(&str) -> T,
    N: Fn(T) -> T,
    B: Fn(BinaryOp, T, T) -> T,
    Z: Fn(T) -> bool,
    I: Fn(T) -> i64,
    W: Fn(i64) -> T,
>(arithmetic: Arithmetic<T, L, N, B, Z, I, W>, op: BinaryOp, a: T, b: T, value: T)
    requires
        applies(arithmetic, op, a, b, value),
    ensures
        gives(arithmetic, op, a, b, value),
{
    if op == BinaryOp::ShiftLeft || op == BinaryOp::ShiftRight {
        let (m, n) = choose|m: i64, n: i64|
            #![trigger shifted(op, m, n)]
            call_ensures(arithmetic.to_integer, (a,), m) && call_ensures(
                arithmetic.to_integer,
                (b,),
                n,
            ) && call_ensures(arithmetic.from_integer, (shifted(op, m, n),), value);
        let places = (n % 64) as u64;
        lemma_moved_left(m, places);
        lemma_moved_right(m, places);
        assert(moved(op, m, n, shifted(op, m, n)));
    }
}

/// A formula comes to what it is worth as it is written: every operator is
/// applied to the values of its two sides in their order, a minus sign to the
/// value behind it, and a division by zero comes to the undefined value.
pub proof fn law_evaluated<
    T: Copy,
    L: Fn(&str) -> T,
    N: Fn(T) -> T,
    B: Fn(BinaryOp, T, T) -> T,
    Z: Fn(T) -> bool,
    I: Fn(T) -> i64,
    W: Fn(i64) -> T,
>(
    expr: &str,
    vars: &NameMap<T>,
    arithmetic: &Arithmetic<T, L, N, B, Z, I, W>,
    s: Syntax,
    rest: Seq<Lexeme>,
    defined: Set<Seq<char>>,
    out: Result<T, FormulaError>,
)
    requires
        call_ensures(evaluate::<T, L, N, B, Z, I, W>, (expr, vars, arithmetic), out),
        forall|name: Seq<char>| #[trigger]
            defined.contains(name) <==> exists|i: int|
                0 <= i < vars@.len() && (#[trigger] vars@[i]).0 == name,
        s.proper(defined),
        rest.len() == 0 || !is_sign(rest[0]),
    ensures
        tokens_of(expr@) == Ok::<Seq<Lexeme>, Fault>(s.tokens() + rest) ==> (out matches Ok(value)
            && worth(s, vars@, *arithmetic, value)),
        tokens_of(expr@) matches Err(fault) ==> (out matches Err(e) && e.deep_view() == fault),
{
    law_formula_read(s, rest, defined);
    assert(defined =~= defined_names(vars@));
    if tokens_of(expr@) == Ok::<Seq<Lexeme>, Fault>(s.tokens() + rest) {
        lemma_worth(s, vars@, *arithmetic, out->Ok_0);
    }
}

/// What is applied is what the operator gives.
pub proof fn law_applied<
    T: Copy,
    L: Fn(&str) -> T,
    N: Fn(T) -> T,
    B: Fn(BinaryOp, T, T) -> T,
    Z: Fn(T) -> bool,
    I: Fn(T) -> i64,
    W: Fn(i64) -> T,
>(
    arithmetic: &Arithmetic<T, L, N, B, Z, I, W>,
    op: BinaryOp,
    a: T,
    b: T,
    value: T,
)
    requires
        call_ensures(apply_binop::<T, L, N, B, Z, I, W>, (arithmetic, op, a, b), value),
    ensures
        gives(*arithmetic, op, a, b, value),
{
    lemma_gives(*arithmetic, op, a, b, value);
}

// ─── Texts of formulas ───────────────────────────────────────────────────────

/// A token ahead of what a text gives.
pub open spec fn ahead(token: Lexeme, rest: Result<Seq<Lexeme>, Fault>) -> Result<
    Seq<Lexeme>,
    Fault,
> {
    match rest {
        Ok(tokens) => Ok(seq![token] + tokens),
        Err(fault) => Err(fault),
    }
}

/// Whether a character is a letter of `A` to `Z`, in either case, or `_`.
pub open spec fn is_letter(c: char) -> bool {
    'a' <= c <= 'z' || 'A' <= c <= 'Z' || c == '_'
}

/// Whether a character is one of the ten digits.
pub open spec fn is_decimal(c: char) -> bool {
    '0' <= c <= '9'
}

/// Whether a text is digits alone.
pub open spec fn decimals(s: Seq<char>) -> bool {
    forall|i: int| 0 <= i < s.len() ==> is_decimal(#[trigger] s[i])
}

proof fn lemma_run_of(a: Seq<char>, b: Seq<char>, property: spec_fn(char) -> bool)
    requires
        forall|i: int| 0 <= i < a.len() ==> property(#[trigger] a[i]),
        b.len() == 0 || !property(b[0]),
    ensures
        run_length(a + b, property) == a.len(),
    decreases a.len(),
{
    let s = a + b;
    if a.len() > 0 {
        let rest = a.drop_first();
        assert forall|i: int| 0 <= i < rest.len() implies property(#[trigger] rest[i]) by {
            assert(property(a[i + 1]));
        }
        lemma_run_of(rest, b, property);
        assert(s.drop_first() =~= rest + b);
        assert(property(a[0]));
        assert(s[0] == a[0]);
    } else {
        assert(s =~= b);
    }
}

/// Signs, brackets and blanks are told by their characters, one after another,
/// and no other character but a letter, a digit, `.` and `_` can stand in a
/// formula.
pub proof fn law_signs(s: Seq<char>, c: char)
    ensures
        tokens_of(Seq::empty()) == Ok::<Seq<Lexeme>, Fault>(Seq::empty()),
        c == ' ' || c == '\t' || c == '\n' || c == '\r' ==> tokens_of(seq![c] + s) == tokens_of(s),
        tokens_of(seq!['+'] + s) == ahead(TokenOf::Plus, tokens_of(s)),
        tokens_of(seq!['-'] + s) == ahead(TokenOf::Minus, tokens_of(s)),
        tokens_of(seq!['*'] + s) == ahead(TokenOf::Star, tokens_of(s)),
        tokens_of(seq!['/'] + s) == ahead(TokenOf::Slash, tokens_of(s)),
        tokens_of(seq!['('] + s) == ahead(TokenOf::LParen, tokens_of(s)),
        tokens_of(seq![')'] + s) == ahead(TokenOf::RParen, tokens_of(s)),
        tokens_of(seq!['<', '<'] + s) == ahead(TokenOf::LShift, tokens_of(s)),
        tokens_of(seq!['>', '>'] + s) == ahead(TokenOf::RShift, tokens_of(s)),
        (c == '<' || c == '>') && (s.len() == 0 || s[0] != c) ==> tokens_of(seq![c] + s) == Err::<
            Seq<Lexeme>,
            Fault,
        >(Fault::UnexpectedChar(c)),
        !is_letter(c) && !is_decimal(c) && c != '.' && c != ' ' && c != '\t' && c != '\n' && c
            != '\r' && c != '+' && c != '-' && c != '*' && c != '/' && c != '(' && c != ')' && c
            != '<' && c != '>' ==> tokens_of(seq![c] + s) == Err::<Seq<Lexeme>, Fault>(
            Fault::UnexpectedChar(c),
        ),
{
    assert((seq![c] + s).skip(1) =~= s);
    assert((seq!['+'] + s).skip(1) =~= s);
    assert((seq!['-'] + s).skip(1) =~= s);
    assert((seq!['*'] + s).skip(1) =~= s);
    assert((seq!['/'] + s).skip(1) =~= s);
    assert((seq!['('] + s).skip(1) =~= s);
    assert((seq![')'] + s).skip(1) =~= s);
    assert((seq!['<', '<'] + s).skip(2) =~= s);
    assert((seq!['>', '>'] + s).skip(2) =~= s);
}

/// A name starts with a letter or `_` and goes on with letters, digits and `_`
/// for as long as there are any.
pub proof fn law_names(name: Seq<char>, s: Seq<char>)
    requires
        name.len() > 0,
        is_letter(name[0]),
        forall|i: int|
            0 <= i < name.len() ==> is_letter(#[trigger] name[i]) || is_decimal(name[i]),
        s.len() == 0 || !(is_letter(s[0]) || is_decimal(s[0])),
    ensures
        tokens_of(name + s) == ahead(TokenOf::Ident(name), tokens_of(s)),
{
    let property = |c: char| in_name(c);
    assert forall|i: int| 0 <= i < name.len() implies property(#[trigger] name[i]) by {
        assert(is_letter(name[i]) || is_decimal(name[i]));
    }
    lemma_run_of(name, s, property);
    assert((name + s).take(name.len() as int) =~= name);
    assert((name + s).skip(name.len() as int) =~= s);
    assert((name + s)[0] == name[0]);
}

/// The text of a number: digits, a point with more digits, and behind an `e` or
/// `E` digits of an exponent.
pub open spec fn number_text(
    whole: Seq<char>,
    point: bool,
    fraction: Seq<char>,
    mark: Option<char>,
    exponent: Seq<char>,
) -> Seq<char> {
    whole + (if point {
        seq!['.'] + fraction
    } else {
        Seq::empty()
    }) + (match mark {
        Some(e) => seq![e] + exponent,
        None => Seq::empty(),
    })
}

/// Whether the parts of a number are what they must be: digits alone, one of
/// them at least before the exponent, and one in the exponent if there is one.
pub open spec fn number_parts(
    whole: Seq<char>,
    point: bool,
    fraction: Seq<char>,
    mark: Option<char>,
    exponent: Seq<char>,
) -> bool {
    &&& decimals(whole) && decimals(fraction) && decimals(exponent)
    &&& !point ==> fraction.len() == 0
    &&& whole.len() + fraction.len() > 0
    &&& mark matches Some(e) ==> (e == 'e' || e == 'E') && exponent.len() > 0
}

/// Whether a text is that of a number.
pub open spec fn is_number_text(text: Seq<char>) -> bool {
    exists|whole: Seq<char>, point: bool, fraction: Seq<char>, mark: Option<char>, exponent: Seq<
        char,
    >| #[trigger]
        number_parts(whole, point, fraction, mark, exponent) && text == number_text(
            whole,
            point,
            fraction,
            mark,
            exponent,
        )
}

proof fn lemma_number_of_parts(
    whole: Seq<char>,
    point: bool,
    fraction: Seq<char>,
    mark: Option<char>,
    exponent: Seq<char>,
)
    requires
        number_parts(whole, point, fraction, mark, exponent),
    ensures
        is_number(number_text(whole, point, fraction, mark, exponent)),
{
    let mantissa = whole + (if point {
        seq!['.'] + fraction
    } else {
        Seq::empty()
    });
    let tail = match mark {
        Some(e) => seq![e] + exponent,
        None => Seq::empty(),
    };
    let text = number_text(whole, point, fraction, mark, exponent);
    let property = |c: char| c != 'e' && c != 'E';
    assert(text == mantissa + tail);
    assert forall|i: int| 0 <= i < mantissa.len() implies is_digit(#[trigger] mantissa[i])
        || mantissa[i] == '.' by {
        if i < whole.len() {
            assert(is_decimal(whole[i]));
        } else if i > whole.len() {
            assert(is_decimal(fraction[i - whole.len() - 1]));
        }
    }
    assert forall|i: int| 0 <= i < mantissa.len() implies property(#[trigger] mantissa[i]) by {
        assert(is_digit(mantissa[i]) || mantissa[i] == '.');
    }
    lemma_run_of(mantissa, tail, property);
    assert(text.take(mantissa.len() as int) =~= mantissa);
    assert(is_mantissa(mantissa)) by {
        if whole.len() > 0 {
            assert(is_decimal(whole[0]));
            assert(is_digit(mantissa[0]));
        } else {
            assert(is_decimal(fraction[0]));
            assert(is_digit(mantissa[1]));
        }
        assert forall|i: int, j: int| 0 <= i < j < mantissa.len() implies !((#[trigger] mantissa[i])
            == '.' && (#[trigger] mantissa[j]) == '.') by {
            if i < whole.len() {
                assert(is_decimal(whole[i]));
            } else {
                assert(is_decimal(fraction[j - whole.len() - 1]));
            }
        }
    }
    if mark is Some {
        assert(text.skip((mantissa.len() + 1) as int) =~= exponent);
        assert(all_digits(exponent)) by {
            assert forall|i: int| 0 <= i < exponent.len() implies is_digit(
                #[trigger] exponent[i],
            ) by {
                assert(is_decimal(exponent[i]));
            }
        }
    }
}

proof fn lemma_parts_of_number(text: Seq<char>)
    requires
        is_number(text),
    ensures
        is_number_text(text),
{
    let property = |c: char| c != 'e' && c != 'E';
    let cut = run_length(text, property) as int;
    lemma_run_length(text, property);
    let mantissa = text.take(cut);
    let (mark, exponent) = if cut == text.len() {
        (None, Seq::empty())
    } else {
        (Some(text[cut]), text.skip(cut + 1))
    };
    let point = mantissa.contains('.');
    let p = if point {
        mantissa.index_of('.')
    } else {
        cut
    };
    let whole = mantissa.take(p);
    let fraction = if point {
        mantissa.skip(p + 1)
    } else {
        Seq::empty()
    };
    assert(decimals(whole)) by {
        assert forall|i: int| 0 <= i < whole.len() implies is_decimal(#[trigger] whole[i]) by {
            assert(is_digit(mantissa[i]) || mantissa[i] == '.');
            if point {
                assert(!(mantissa[i] == '.' && mantissa[p] == '.'));
            } else {
                assert(mantissa[i] != '.');
            }
        }
    }
    assert(decimals(fraction)) by {
        assert forall|i: int| 0 <= i < fraction.len() implies is_decimal(
            #[trigger] fraction[i],
        ) by {
            assert(is_digit(mantissa[p + 1 + i]) || mantissa[p + 1 + i] == '.');
            assert(!(mantissa[p] == '.' && mantissa[p + 1 + i] == '.'));
        }
    }
    assert(decimals(exponent)) by {
        assert forall|i: int| 0 <= i < exponent.len() implies is_decimal(
            #[trigger] exponent[i],
        ) by {
            assert(is_digit(exponent[i]));
        }
    }
    let d = choose|i: int| 0 <= i < mantissa.len() && is_digit(#[trigger] mantissa[i]);
    assert(mantissa[d] != '.');
    assert(text =~= number_text(whole, point, fraction, mark, exponent));
    assert(number_parts(whole, point, fraction, mark, exponent));
}

/// A number goes on for as long as there are digits, points, `e` and `E`; if
/// these do not make up the text of a number, they are reported.
pub proof fn law_numbers(text: Seq<char>, s: Seq<char>)
    requires
        text.len() > 0,
        is_decimal(text[0]) || text[0] == '.',
        forall|i: int|
            0 <= i < text.len() ==> is_decimal(#[trigger] text[i]) || text[i] == '.' || text[i]
                == 'e' || text[i] == 'E',
        s.len() == 0 || !(is_decimal(s[0]) || s[0] == '.' || s[0] == 'e' || s[0] == 'E'),
    ensures
        is_number_text(text) ==> tokens_of(text + s) == ahead(TokenOf::Number(text), tokens_of(s)),
        !is_number_text(text) ==> tokens_of(text + s) == Err::<Seq<Lexeme>, Fault>(
            Fault::UnexpectedToken(text),
        ),
{
    let property = |c: char| in_number(c);
    assert forall|i: int| 0 <= i < text.len() implies property(#[trigger] text[i]) by {
        assert(is_decimal(text[i]) || text[i] == '.' || text[i] == 'e' || text[i] == 'E');
    }
    lemma_run_of(text, s, property);
    assert((text + s).take(text.len() as int) =~= text);
    assert((text + s).skip(text.len() as int) =~= s);
    assert((text + s)[0] == text[0]);
    if is_number(text) {
        lemma_parts_of_number(text);
    }
    if is_number_text(text) {
        let (whole, point, fraction, mark, exponent) = choose|
            whole: Seq<char>,
            point: bool,
            fraction: Seq<char>,
            mark: Option<char>,
            exponent: Seq<char>,
        | #[trigger]
            number_parts(whole, point, fraction, mark, exponent) && text == number_text(
                whole,
                point,
                fraction,
                mark,
                exponent,
            );
        lemma_number_of_parts(whole, point, fraction, mark, exponent);
    }
}

/// Cutting a formula gives its tokens, or the fault of the first part of it
/// that is none.
pub proof fn law_tokenized(input: &str, out: Result<Vec<Token>, FormulaError>)
    requires
        call_ensures(tokenize, (input,), out),
    ensures
        match tokens_of(input@) {
            Ok(tokens) => out matches Ok(found) && found.len() == tokens.len() && forall|i: int|
                0 <= i < tokens.len() ==> match (#[trigger] tokens[i]) {
                    TokenOf::Number(text) => found@[i] matches TokenOf::Number(t) && t@ == text,
                    TokenOf::Ident(name) => found@[i] matches TokenOf::Ident(t) && t@ == name,
                    TokenOf::Plus => found@[i] is Plus,
                    TokenOf::Minus => found@[i] is Minus,
                    TokenOf::Star => found@[i] is Star,
                    TokenOf::Slash => found@[i] is Slash,
                    TokenOf::LShift => found@[i] is LShift,
                    TokenOf::RShift => found@[i] is RShift,
                    TokenOf::LParen => found@[i] is LParen,
                    TokenOf::RParen => found@[i] is RParen,
                },
            Err(Fault::UnexpectedChar(c)) => out matches Err(FormulaError::UnexpectedChar(d)) && d
                == c,
            Err(Fault::UnexpectedToken(text)) => out matches Err(FormulaError::UnexpectedToken(t))
                && t@ == text,
            Err(_) => true,
        },
{
    if let Ok(found) = out {
        assert forall|i: int| 0 <= i < found.len() implies found.deep_view()[i]
            == #[trigger] found@[i].deep_view() by {}
    }
}

/// A text is a number if it has digits, perhaps a point among or around them,
/// and perhaps an exponent behind.
pub proof fn law_number_checked(s: &Vec<char>, b: bool)
    requires
        call_ensures(check_number, (s,), b),
    ensures
        b <==> is_number_text(s@),
{
    if b {
        lemma_parts_of_number(s@);
    }
    if is_number_text(s@) {
        let (whole, point, fraction, mark, exponent) = choose|
            whole: Seq<char>,
            point: bool,
            fraction: Seq<char>,
            mark: Option<char>,
            exponent: Seq<char>,
        | #[trigger]
            number_parts(whole, point, fraction, mark, exponent) && s@ == number_text(
                whole,
                point,
                fraction,
                mark,
                exponent,
            );
        lemma_number_of_parts(whole, point, fraction, mark, exponent);
    }
}

/// An expression comes to what the formula is worth that it was read from.
pub proof fn law_expression_evaluated<
    T: Copy,
    L: Fn(&str) -> T,
    N: Fn(T) -> T,
    B: Fn(BinaryOp, T, T) -> T,
    Z: Fn(T) -> bool,
    I: Fn(T) -> i64,
    W: Fn(i64) -> T,
>(
    expr: &Expr,
    vars: &NameMap<T>,
    arithmetic: &Arithmetic<T, L, N, B, Z, I, W>,
    s: Syntax,
    value: T,
)
    requires
        call_ensures(evaluate_expr::<T, L, N, B, Z, I, W>, (expr, vars, arithmetic), value),
        tree_of(*expr) == s.tree(),
    ensures
        worth(s, vars@, *arithmetic, value),
{
    lemma_worth(s, vars@, *arithmetic, value);
}

/// What the errors of formulas say: the character, the name or the token that is
/// wrong.
pub proof fn law_messages(e: &FormulaError, out: String)
    requires
        call_ensures(FormulaError::message, (e,), out),
    ensures
        e matches FormulaError::UnexpectedChar(c) ==> out@ == "unexpected character: '"@ + seq![
            *c,
        ] + "'"@,
        e is UnexpectedEnd ==> out@ == "unexpected end of expression"@,
        e matches FormulaError::UndefinedVariable(name) ==> out@ == "undefined variable: '"@
            + name@ + "'"@,
        e matches FormulaError::UnexpectedToken(what) ==> out@ == "unexpected token: "@ + what@,
{
}

} // verus!
