//! The expression engine: lexer, infix-to-postfix conversion
//! (shunting-yard), variable substitution, and postfix evaluation.
//!
//! Every function is specified against a mathematical model:
//! tokens are modelled by [`TokenV`] (over `Seq<char>` and `i64`),
//! errors by [`ErrV`], and each stage by a recursive spec function
//! ([`lex_spec`], [`sy_run`], [`run_machine`]).

use vstd::prelude::*;

verus! {

// ------------------------------------------------------------------
// Tokens and their mathematical model
// ------------------------------------------------------------------

/// A lexical token of the expression language.
///
/// A function-call marker carries the matched text, the name together
/// with its opening parenthesis (e.g. `"sin("`).
#[derive(Debug, Clone, PartialEq)]
pub enum Token {
    Plus,
    Minus,
    Star,
    Slash,
    Caret,
    Modulus,
    LeftParen,
    RightParen,
    VarX,
    Comma,
    Int(i64),
    FuncCall(String),
}

/// Model of a [`Token`]: the function-call payload is a character
/// sequence rather than a heap string.
pub enum TokenV {
    Plus,
    Minus,
    Star,
    Slash,
    Caret,
    Modulus,
    LeftParen,
    RightParen,
    VarX,
    Comma,
    Int(i64),
    FuncCall(Seq<char>),
}

impl View for Token {
    type V = TokenV;

    open spec fn view(&self) -> TokenV {
        match self {
            Token::Plus => TokenV::Plus,
            Token::Minus => TokenV::Minus,
            Token::Star => TokenV::Star,
            Token::Slash => TokenV::Slash,
            Token::Caret => TokenV::Caret,
            Token::Modulus => TokenV::Modulus,
            Token::LeftParen => TokenV::LeftParen,
            Token::RightParen => TokenV::RightParen,
            Token::VarX => TokenV::VarX,
            Token::Comma => TokenV::Comma,
            Token::Int(v) => TokenV::Int(*v),
            Token::FuncCall(s) => TokenV::FuncCall(s@),
        }
    }
}

impl DeepView for Token {
    type V = TokenV;

    open spec fn deep_view(&self) -> TokenV {
        self.view()
    }
}

impl Token {
    /// True exactly for the six binary operators.
    pub fn is_operator(&self) -> (r: bool)
        ensures
            r == spec_is_operator(self@),
    {
        match self {
            Token::Plus
            | Token::Minus
            | Token::Star
            | Token::Slash
            | Token::Caret
            | Token::Modulus => true,
            _ => false,
        }
    }

    /// Structural copy with a known model; clones the function-call payload.
    pub fn dup(&self) -> (r: Token)
        ensures
            r@ == self@,
    {
        match self {
            Token::Plus => Token::Plus,
            Token::Minus => Token::Minus,
            Token::Star => Token::Star,
            Token::Slash => Token::Slash,
            Token::Caret => Token::Caret,
            Token::Modulus => Token::Modulus,
            Token::LeftParen => Token::LeftParen,
            Token::RightParen => Token::RightParen,
            Token::VarX => Token::VarX,
            Token::Comma => Token::Comma,
            Token::Int(v) => Token::Int(*v),
            Token::FuncCall(s) => Token::FuncCall(s.clone()),
        }
    }
}

// ------------------------------------------------------------------
// Errors and their mathematical model
// ------------------------------------------------------------------

/// Every way a stage of the engine can fail.
#[derive(Debug, Clone, PartialEq)]
pub enum EvalError {
    /// No lexical rule matches at `position`; `substring` is the
    /// offending text.
    LexError { substring: String, position: usize },
    /// The postfix sequence did not leave exactly one value on the
    /// stack, or a stray grouping token reached evaluation.
    MalformedExpression,
    /// A function-call marker reached evaluation; `name` is the
    /// function name without its opening parenthesis.
    UnsupportedFunction { name: String },
    /// An operator was applied with fewer than two operands available.
    StackUnderflow,
    /// The right operand of `/` or `%` was zero.
    DivideByZero,
    /// The exponent of `^` was negative or exceeded `u32::MAX`.
    ExponentOutOfRange,
}

/// Model of an [`EvalError`].
pub enum ErrV {
    LexError { substring: Seq<char>, position: int },
    MalformedExpression,
    UnsupportedFunction { name: Seq<char> },
    StackUnderflow,
    DivideByZero,
    ExponentOutOfRange,
}

impl View for EvalError {
    type V = ErrV;

    open spec fn view(&self) -> ErrV {
        match self {
            EvalError::LexError { substring, position } => ErrV::LexError {
                substring: substring@,
                position: *position as int,
            },
            EvalError::MalformedExpression => ErrV::MalformedExpression,
            EvalError::UnsupportedFunction { name } => ErrV::UnsupportedFunction { name: name@ },
            EvalError::StackUnderflow => ErrV::StackUnderflow,
            EvalError::DivideByZero => ErrV::DivideByZero,
            EvalError::ExponentOutOfRange => ErrV::ExponentOutOfRange,
        }
    }
}

// ------------------------------------------------------------------
// Precedence and associativity
// ------------------------------------------------------------------

/// Associativity of an operator: a fixed property of its kind.
#[derive(PartialEq, Eq, Structural, Copy, Clone, Debug)]
pub enum Associativity {
    Left,
    Right,
}

/// Precedence level: additive 1, multiplicative 2, power 3; every
/// non-operator token acts as a low sentinel.
pub open spec fn spec_prec(t: TokenV) -> int {
    match t {
        TokenV::Plus => 1,
        TokenV::Minus => 1,
        TokenV::Star => 2,
        TokenV::Slash => 2,
        TokenV::Modulus => 2,
        TokenV::Caret => 3,
        _ => -1,
    }
}

/// Power is right-associative; everything else is left-associative.
pub open spec fn spec_is_left_assoc(t: TokenV) -> bool {
    !(t is Caret)
}

/// The six binary operators.
pub open spec fn spec_is_operator(t: TokenV) -> bool {
    match t {
        TokenV::Plus
        | TokenV::Minus
        | TokenV::Star
        | TokenV::Slash
        | TokenV::Caret
        | TokenV::Modulus => true,
        _ => false,
    }
}

/// Precedence of a token, as used by the shunting-yard conversion.
pub fn prec(token: &Token) -> (r: i64)
    ensures
        r as int == spec_prec(token@),
{
    match token {
        Token::Plus => 1,
        Token::Minus => 1,
        Token::Star => 2,
        Token::Slash => 2,
        Token::Modulus => 2,
        Token::Caret => 3,
        _ => -1,
    }
}

/// Associativity of a token, as used by the shunting-yard conversion.
pub fn associativity(token: &Token) -> (r: Associativity)
    ensures
        (r == Associativity::Left) == spec_is_left_assoc(token@),
{
    match token {
        Token::Caret => Associativity::Right,
        _ => Associativity::Left,
    }
}

// ------------------------------------------------------------------
// Lexer
// ------------------------------------------------------------------

/// Whitespace skipped between tokens: space, tab, newline, form feed.
pub open spec fn is_ws_char(c: char) -> bool {
    c == ' ' || c == '\t' || c == '\n' || c == '\u{000c}'
}

pub open spec fn is_letter_char(c: char) -> bool {
    ('a' <= c && c <= 'z') || ('A' <= c && c <= 'Z')
}

pub open spec fn is_digit_char(c: char) -> bool {
    '0' <= c && c <= '9'
}

/// Length of the run of letters starting at `i`.
pub open spec fn letters_len(s: Seq<char>, i: int) -> nat
    decreases s.len() - i,
{
    if 0 <= i < s.len() && is_letter_char(s[i]) {
        1 + letters_len(s, i + 1)
    } else {
        0
    }
}

/// Length of the run of decimal digits starting at `i`.
pub open spec fn digits_len(s: Seq<char>, i: int) -> nat
    decreases s.len() - i,
{
    if 0 <= i < s.len() && is_digit_char(s[i]) {
        1 + digits_len(s, i + 1)
    } else {
        0
    }
}

/// The letter run starting at `i` stays within `s`, consists of
/// letters, and is maximal.
pub proof fn lemma_letters_len(s: Seq<char>, i: int)
    requires
        0 <= i <= s.len(),
    ensures
        i + letters_len(s, i) <= s.len(),
        forall|k: int| i <= k < i + letters_len(s, i) ==> is_letter_char(s[k]),
        i + letters_len(s, i) < s.len() ==> !is_letter_char(s[i + letters_len(s, i)]),
    decreases s.len() - i,
{
    if i < s.len() && is_letter_char(s[i]) {
        lemma_letters_len(s, i + 1);
    }
}

/// A maximal run of letters determines `letters_len`.
pub proof fn lemma_letters_len_exact(s: Seq<char>, i: int, j: int)
    requires
        0 <= i <= j <= s.len(),
        forall|k: int| i <= k < j ==> is_letter_char(s[k]),
        j < s.len() ==> !is_letter_char(s[j]),
    ensures
        i + letters_len(s, i) == j,
    decreases j - i,
{
    if i < j {
        lemma_letters_len_exact(s, i + 1, j);
    }
}

/// The digit run starting at `i` stays within `s`, consists of digits,
/// and is maximal.
pub proof fn lemma_digits_len(s: Seq<char>, i: int)
    requires
        0 <= i <= s.len(),
    ensures
        i + digits_len(s, i) <= s.len(),
        forall|k: int| i <= k < i + digits_len(s, i) ==> is_digit_char(s[k]),
        i + digits_len(s, i) < s.len() ==> !is_digit_char(s[i + digits_len(s, i)]),
    decreases s.len() - i,
{
    if i < s.len() && is_digit_char(s[i]) {
        lemma_digits_len(s, i + 1);
    }
}

/// A maximal run of digits determines `digits_len`.
pub proof fn lemma_digits_len_exact(s: Seq<char>, i: int, j: int)
    requires
        0 <= i <= j <= s.len(),
        forall|k: int| i <= k < j ==> is_digit_char(s[k]),
        j < s.len() ==> !is_digit_char(s[j]),
    ensures
        i + digits_len(s, i) == j,
    decreases j - i,
{
    if i < j {
        lemma_digits_len_exact(s, i + 1, j);
    }
}

/// Numeric value of the decimal digits `s[i..j]`.
pub open spec fn digits_val(s: Seq<char>, i: int, j: int) -> int
    decreases j - i,
{
    if i < j {
        digits_val(s, i, j - 1) * 10 + (s[j - 1] as int - 48)
    } else {
        0
    }
}

pub proof fn lemma_digits_val_nonneg(s: Seq<char>, i: int, j: int)
    requires
        forall|k: int| i <= k < j ==> is_digit_char(s[k]),
    ensures
        digits_val(s, i, j) >= 0,
    decreases j - i,
{
    if i < j {
        lemma_digits_val_nonneg(s, i, j - 1);
    }
}

/// Extending a digit run never decreases its value.
pub proof fn lemma_digits_val_mono(s: Seq<char>, i: int, j1: int, j2: int)
    requires
        i <= j1 <= j2,
        forall|k: int| i <= k < j2 ==> is_digit_char(s[k]),
    ensures
        digits_val(s, i, j1) <= digits_val(s, i, j2),
    decreases j2 - j1,
{
    if j1 < j2 {
        lemma_digits_val_mono(s, i, j1, j2 - 1);
        lemma_digits_val_nonneg(s, i, j2 - 1);
    }
}

/// The token, if any, for a single-character rule.
pub open spec fn single_char_token(c: char) -> Option<TokenV> {
    if c == '+' {
        Some(TokenV::Plus)
    } else if c == '-' {
        Some(TokenV::Minus)
    } else if c == '*' {
        Some(TokenV::Star)
    } else if c == '/' {
        Some(TokenV::Slash)
    } else if c == '^' {
        Some(TokenV::Caret)
    } else if c == '%' {
        Some(TokenV::Modulus)
    } else if c == '(' {
        Some(TokenV::LeftParen)
    } else if c == ')' {
        Some(TokenV::RightParen)
    } else if c == ',' {
        Some(TokenV::Comma)
    } else {
        None
    }
}

/// Prepend a token to the result of lexing the rest of the input.
pub open spec fn lex_cons(t: TokenV, rest: Result<Seq<TokenV>, ErrV>) -> Result<
    Seq<TokenV>,
    ErrV,
> {
    match rest {
        Ok(ts) => Ok(seq![t] + ts),
        Err(e) => Err(e),
    }
}

/// The lexical rules, from position `i` on.
///
/// In priority order: skip whitespace; a run of letters immediately
/// followed by `(` is one function-call marker (so `sin(` never lexes
/// as letters then a paren); the single letter `x` is the variable;
/// a run of digits is a signed 64-bit literal, with overflow a lexical
/// error; the nine single-character tokens; anything else is a
/// lexical error naming the offending character.
pub open spec fn lex_from(s: Seq<char>, i: int) -> Result<Seq<TokenV>, ErrV>
    decreases s.len() - i,
    via lex_from_decreases
{
    if i < 0 || i >= s.len() {
        Ok(Seq::empty())
    } else if is_ws_char(s[i]) {
        lex_from(s, i + 1)
    } else if is_letter_char(s[i]) {
        let j = i + 1 + letters_len(s, i + 1);
        if j < s.len() && s[j] == '(' {
            lex_cons(TokenV::FuncCall(s.subrange(i, j + 1)), lex_from(s, j + 1))
        } else if s[i] == 'x' {
            lex_cons(TokenV::VarX, lex_from(s, i + 1))
        } else {
            Err(ErrV::LexError { substring: seq![s[i]], position: i })
        }
    } else if is_digit_char(s[i]) {
        let j = i + 1 + digits_len(s, i + 1);
        if digits_val(s, i, j) > i64::MAX as int {
            Err(ErrV::LexError { substring: s.subrange(i, j), position: i })
        } else {
            lex_cons(TokenV::Int(digits_val(s, i, j) as i64), lex_from(s, j))
        }
    } else {
        match single_char_token(s[i]) {
            Some(t) => lex_cons(t, lex_from(s, i + 1)),
            None => Err(ErrV::LexError { substring: seq![s[i]], position: i }),
        }
    }
}

#[via_fn]
proof fn lex_from_decreases(s: Seq<char>, i: int) {
    if 0 <= i < s.len() {
        lemma_letters_len(s, i + 1);
        lemma_digits_len(s, i + 1);
    }
}

/// What tokenizing a whole character sequence yields.
pub open spec fn lex_spec(s: Seq<char>) -> Result<Seq<TokenV>, ErrV> {
    lex_from(s, 0)
}

/// Tokens already produced, prepended to the outcome of the rest.
pub open spec fn lex_prepend(ts: Seq<TokenV>, rest: Result<Seq<TokenV>, ErrV>) -> Result<
    Seq<TokenV>,
    ErrV,
> {
    match rest {
        Ok(more) => Ok(ts + more),
        Err(e) => Err(e),
    }
}

fn is_ws(c: char) -> (r: bool)
    ensures
        r == is_ws_char(c),
{
    c == ' ' || c == '\t' || c == '\n' || c == '\u{000c}'
}

fn is_letter(c: char) -> (r: bool)
    ensures
        r == is_letter_char(c),
{
    ('a' <= c && c <= 'z') || ('A' <= c && c <= 'Z')
}

fn is_digit(c: char) -> (r: bool)
    ensures
        r == is_digit_char(c),
{
    '0' <= c && c <= '9'
}

/// Tokenize an expression.
///
/// Returns the token sequence that the lexical rules of [`lex_from`]
/// assign to the text, or the first lexical error.
#[verifier::loop_isolation(false)]
pub fn parse(expr: &str) -> (r: Result<Vec<Token>, EvalError>)
    ensures
        (match r {
            Ok(ts) => lex_spec(expr@) == Ok::<Seq<TokenV>, ErrV>(ts.deep_view()),
            Err(e) => lex_spec(expr@) == Err::<Seq<TokenV>, ErrV>(e@),
        }),
{
    let ghost s = expr@;
    let n = expr.unicode_len();
    let mut i: usize = 0;
    let mut tokens: Vec<Token> = Vec::new();
    while i < n
        invariant
            n == s.len(),
            s == expr@,
            i <= n,
            lex_spec(s) == lex_prepend(tokens.deep_view(), lex_from(s, i as int)),
        decreases n - i,
    {
        let ghost dv0 = tokens.deep_view();
        let c = expr.get_char(i);
        if is_ws(c) {
            i = i + 1;
        } else if is_letter(c) {
            let mut j: usize = i + 1;
            while j < n && is_letter(expr.get_char(j))
                invariant
                    n == s.len(),
                    s == expr@,
                    i < j <= n,
                    forall|k: int| i + 1 <= k < j ==> is_letter_char(s[k]),
                decreases n - j,
            {
                j = j + 1;
            }
            proof {
                lemma_letters_len_exact(s, i as int + 1, j as int);
            }
            if j < n && expr.get_char(j) == '(' {
                let name = expr.substring_char(i, j + 1).to_owned();
                tokens.push(Token::FuncCall(name));
                proof {
                    assert(tokens.deep_view() =~= dv0.push(
                        TokenV::FuncCall(s.subrange(i as int, j as int + 1)),
                    ));
                    lemma_lex_prepend_step(
                        dv0,
                        TokenV::FuncCall(s.subrange(i as int, j as int + 1)),
                        lex_from(s, j as int + 1),
                    );
                }
                i = j + 1;
            } else if c == 'x' {
                tokens.push(Token::VarX);
                proof {
                    assert(tokens.deep_view() =~= dv0.push(TokenV::VarX));
                    lemma_lex_prepend_step(dv0, TokenV::VarX, lex_from(s, i as int + 1));
                }
                i = i + 1;
            } else {
                let sub = expr.substring_char(i, i + 1).to_owned();
                let err = EvalError::LexError { substring: sub, position: i };
                proof {
                    assert(sub@ =~= seq![s[i as int]]);
                }
                return Err(err);
            }
        } else if is_digit(c) {
            let mut j: usize = i + 1;
            while j < n && is_digit(expr.get_char(j))
                invariant
                    n == s.len(),
                    s == expr@,
                    i < j <= n,
                    forall|k: int| i + 1 <= k < j ==> is_digit_char(s[k]),
                decreases n - j,
            {
                j = j + 1;
            }
            proof {
                lemma_digits_len_exact(s, i as int + 1, j as int);
                lemma_digits_val_nonneg(s, i as int, j as int);
            }
            let mut val: i64 = 0;
            let mut k: usize = i;
            while k < j
                invariant
                    n == s.len(),
                    s == expr@,
                    i <= k <= j <= n,
                    forall|m: int| i <= m < j ==> is_digit_char(s[m]),
                    0 <= val,
                    val as int == digits_val(s, i as int, k as int),
                decreases j - k,
            {
                let d = expr.get_char(k) as u32;
                proof {
                    assert(is_digit_char(s[k as int]));
                    assert(48 <= d <= 57);
                }
                let step = match val.checked_mul(10) {
                    Some(v10) => v10.checked_add((d - 48) as i64),
                    None => None,
                };
                match step {
                    Some(v) => {
                        val = v;
                    },
                    None => {
                        proof {
                            assert(digits_val(s, i as int, k as int + 1) > i64::MAX);
                            lemma_digits_val_mono(s, i as int, k as int + 1, j as int);
                        }
                        let sub = expr.substring_char(i, j).to_owned();
                        return Err(EvalError::LexError { substring: sub, position: i });
                    },
                }
                k = k + 1;
            }
            tokens.push(Token::Int(val));
            proof {
                assert(tokens.deep_view() =~= dv0.push(TokenV::Int(val)));
                lemma_lex_prepend_step(dv0, TokenV::Int(val), lex_from(s, j as int));
            }
            i = j;
        } else {
            let tok = match c {
                '+' => Some(Token::Plus),
                '-' => Some(Token::Minus),
                '*' => Some(Token::Star),
                '/' => Some(Token::Slash),
                '^' => Some(Token::Caret),
                '%' => Some(Token::Modulus),
                '(' => Some(Token::LeftParen),
                ')' => Some(Token::RightParen),
                ',' => Some(Token::Comma),
                _ => None,
            };
            match tok {
                Some(t) => {
                    let ghost tv = t@;
                    tokens.push(t);
                    proof {
                        assert(tokens.deep_view() =~= dv0.push(tv));
                        lemma_lex_prepend_step(dv0, tv, lex_from(s, i as int + 1));
                    }
                    i = i + 1;
                },
                None => {
                    let sub = expr.substring_char(i, i + 1).to_owned();
                    proof {
                        assert(sub@ =~= seq![s[i as int]]);
                    }
                    return Err(EvalError::LexError { substring: sub, position: i });
                },
            }
        }
    }
    proof {
        assert(lex_from(s, n as int) == Ok::<Seq<TokenV>, ErrV>(Seq::empty()));
        assert(tokens.deep_view() + Seq::<TokenV>::empty() =~= tokens.deep_view());
    }
    Ok(tokens)
}

/// Shifting one token from the pending suffix onto the produced
/// prefix commutes with `lex_prepend`.
proof fn lemma_lex_prepend_step(ts: Seq<TokenV>, t: TokenV, rest: Result<Seq<TokenV>, ErrV>)
    ensures
        lex_prepend(ts, lex_cons(t, rest)) == lex_prepend(ts.push(t), rest),
{
    match rest {
        Ok(more) => {
            assert(ts + (seq![t] + more) =~= ts.push(t) + more);
        },
        Err(_) => {},
    }
}

// ------------------------------------------------------------------
// Infix-to-postfix conversion (shunting-yard)
// ------------------------------------------------------------------

/// Whether the incoming token `op` forces `top` off the operator
/// stack: `top` binds strictly tighter, or equally tight while `op`
/// is left-associative.
pub open spec fn should_pop(op: TokenV, top: TokenV) -> bool {
    spec_prec(op) < spec_prec(top) || (spec_prec(op) == spec_prec(top) && spec_is_left_assoc(op))
}

/// A token that a right parenthesis stops at and discards.
pub open spec fn is_opener(t: TokenV) -> bool {
    t is LeftParen || t is Comma
}

/// Pop stack entries to the output while `op` forces them off.
pub open spec fn pop_ops(op: TokenV, st: Seq<TokenV>, out: Seq<TokenV>) -> (Seq<TokenV>, Seq<
    TokenV,
>)
    decreases st.len(),
{
    if st.len() > 0 && should_pop(op, st.last()) {
        pop_ops(op, st.drop_last(), out.push(st.last()))
    } else {
        (st, out)
    }
}

/// Pop stack entries to the output until an opener appears on top,
/// then discard the opener (if the stack did not run out first).
pub open spec fn pop_group(st: Seq<TokenV>, out: Seq<TokenV>) -> (Seq<TokenV>, Seq<TokenV>)
    decreases st.len(),
{
    if st.len() > 0 && !is_opener(st.last()) {
        pop_group(st.drop_last(), out.push(st.last()))
    } else if st.len() > 0 {
        (st.drop_last(), out)
    } else {
        (st, out)
    }
}

/// Pop every remaining stack entry to the output, in pop order.
pub open spec fn drain(st: Seq<TokenV>, out: Seq<TokenV>) -> Seq<TokenV>
    decreases st.len(),
{
    if st.len() > 0 {
        drain(st.drop_last(), out.push(st.last()))
    } else {
        out
    }
}

/// One shunting-yard step: how token `t` transforms the operator
/// stack and the output list.
///
/// Literals and the variable go to the output; function-call markers
/// and left parentheses are pushed; a right parenthesis unwinds to
/// the nearest opener; every other token (the six operators, and a
/// comma with sentinel precedence) pops what binds tighter and is
/// then pushed.
pub open spec fn sy_step(t: TokenV, st: Seq<TokenV>, out: Seq<TokenV>) -> (Seq<TokenV>, Seq<
    TokenV,
>) {
    match t {
        TokenV::Int(_) => (st, out.push(t)),
        TokenV::VarX => (st, out.push(t)),
        TokenV::FuncCall(_) => (st.push(t), out),
        TokenV::LeftParen => (st.push(t), out),
        TokenV::RightParen => pop_group(st, out),
        _ => {
            let (st1, out1) = pop_ops(t, st, out);
            (st1.push(t), out1)
        },
    }
}

/// Run the shunting-yard conversion over `ts` from the given state;
/// at the end the stack is drained to the output.
pub open spec fn sy_run(ts: Seq<TokenV>, st: Seq<TokenV>, out: Seq<TokenV>) -> Seq<TokenV>
    decreases ts.len(),
{
    if ts.len() == 0 {
        drain(st, out)
    } else {
        let (st1, out1) = sy_step(ts[0], st, out);
        sy_run(ts.drop_first(), st1, out1)
    }
}

/// What converting a whole token sequence to postfix yields.
pub open spec fn to_postfix_spec(ts: Seq<TokenV>) -> Seq<TokenV> {
    sy_run(ts, Seq::empty(), Seq::empty())
}

fn is_opener_token(t: &Token) -> (r: bool)
    ensures
        r == is_opener(t@),
{
    match t {
        Token::LeftParen | Token::Comma => true,
        _ => false,
    }
}

/// Convert an infix token sequence to postfix (RPN) order with the
/// shunting-yard algorithm.
///
/// Precedence and associativity come from [`prec`] and
/// [`associativity`]; chained powers therefore nest to the right.
#[verifier::loop_isolation(false)]
pub fn infix_to_postfix(tokens: Vec<Token>) -> (r: Vec<Token>)
    ensures
        r.deep_view() == to_postfix_spec(tokens.deep_view()),
{
    let ghost input = tokens.deep_view();
    let mut result: Vec<Token> = Vec::new();
    let mut stack: Vec<Token> = Vec::new();
    let mut idx: usize = 0;
    proof {
        assert(input.skip(0) =~= input);
        assert(result.deep_view() =~= Seq::<TokenV>::empty());
        assert(stack.deep_view() =~= Seq::<TokenV>::empty());
    }
    while idx < tokens.len()
        invariant
            idx <= tokens.len(),
            to_postfix_spec(input) == sy_run(
                input.skip(idx as int),
                stack.deep_view(),
                result.deep_view(),
            ),
        decreases tokens.len() - idx,
    {
        let ghost suffix = input.skip(idx as int);
        let ghost st0 = stack.deep_view();
        let ghost out0 = result.deep_view();
        proof {
            assert(suffix[0] == input[idx as int]);
            assert(suffix.drop_first() =~= input.skip(idx as int + 1));
        }
        let token = &tokens[idx];
        match token {
            Token::Int(_) | Token::VarX => {
                result.push(token.dup());
                proof {
                    assert(result.deep_view() =~= out0.push(token@));
                }
            },
            Token::FuncCall(_) | Token::LeftParen => {
                stack.push(token.dup());
                proof {
                    assert(stack.deep_view() =~= st0.push(token@));
                }
            },
            Token::RightParen => {
                while stack.len() > 0 && !is_opener_token(&stack[stack.len() - 1])
                    invariant
                        pop_group(st0, out0) == pop_group(stack.deep_view(), result.deep_view()),
                    decreases stack.len(),
                {
                    let ghost st_c = stack.deep_view();
                    let ghost out_c = result.deep_view();
                    proof {
                        assert(st_c.last() == stack[stack.len() - 1]@);
                    }
                    match stack.pop() {
                        Some(t) => {
                            result.push(t);
                            proof {
                                assert(stack.deep_view() =~= st_c.drop_last());
                                assert(result.deep_view() =~= out_c.push(st_c.last()));
                            }
                        },
                        None => {},
                    }
                }
                let ghost st_c = stack.deep_view();
                if stack.len() > 0 {
                    proof {
                        assert(st_c.last() == stack[stack.len() - 1]@);
                    }
                    stack.pop();
                    proof {
                        assert(stack.deep_view() =~= st_c.drop_last());
                    }
                }
            },
            _ => {
                while stack.len() > 0 && (prec(token) < prec(&stack[stack.len() - 1]) || (prec(
                    token,
                ) == prec(&stack[stack.len() - 1]) && associativity(token) == Associativity::Left))
                    invariant
                        pop_ops(token@, st0, out0) == pop_ops(
                            token@,
                            stack.deep_view(),
                            result.deep_view(),
                        ),
                    decreases stack.len(),
                {
                    let ghost st_c = stack.deep_view();
                    let ghost out_c = result.deep_view();
                    proof {
                        assert(st_c.last() == stack[stack.len() - 1]@);
                    }
                    match stack.pop() {
                        Some(t) => {
                            result.push(t);
                            proof {
                                assert(stack.deep_view() =~= st_c.drop_last());
                                assert(result.deep_view() =~= out_c.push(st_c.last()));
                            }
                        },
                        None => {},
                    }
                }
                proof {
                    if stack.deep_view().len() > 0 {
                        assert(stack.deep_view().last() == stack[stack.len() - 1]@);
                    }
                }
                let ghost st1 = stack.deep_view();
                stack.push(token.dup());
                proof {
                    assert(stack.deep_view() =~= st1.push(token@));
                }
            },
        }
        idx = idx + 1;
    }
    proof {
        assert(input.skip(input.len() as int) =~= Seq::<TokenV>::empty());
    }
    while stack.len() > 0
        invariant
            to_postfix_spec(input) == drain(stack.deep_view(), result.deep_view()),
        decreases stack.len(),
    {
        let ghost st_c = stack.deep_view();
        let ghost out_c = result.deep_view();
        proof {
            assert(st_c.last() == stack[stack.len() - 1]@);
        }
        match stack.pop() {
            Some(t) => {
                result.push(t);
                proof {
                    assert(stack.deep_view() =~= st_c.drop_last());
                    assert(result.deep_view() =~= out_c.push(st_c.last()));
                }
            },
            None => {},
        }
    }
    result
}

// ------------------------------------------------------------------
// Postfix evaluation
// ------------------------------------------------------------------

/// Truncating division, wrapping on the one overflowing case
/// (`i64::MIN / -1` gives `i64::MIN`).
pub open spec fn wrap_div(l: i64, r: i64) -> i64
    recommends
        r != 0,
{
    match l.checked_div(r) {
        Some(v) => v,
        None => i64::MIN,
    }
}

/// Remainder matching [`wrap_div`]'s rounding, wrapping on the one
/// overflowing case (`i64::MIN % -1` gives `0`).
pub open spec fn wrap_rem(l: i64, r: i64) -> i64
    recommends
        r != 0,
{
    match l.checked_rem(r) {
        Some(v) => v,
        None => 0,
    }
}

/// Two's-complement wrapping power: `b` multiplied into 1, `e` times.
pub open spec fn wrap_pow(b: i64, e: nat) -> i64
    decreases e,
{
    if e == 0 {
        1i64
    } else {
        wrap_pow(b, (e - 1) as nat).wrapping_mul(b)
    }
}

/// The function name carried by a function-call marker, without the
/// trailing opening parenthesis.
pub open spec fn func_name(s: Seq<char>) -> Seq<char> {
    if s.len() > 0 && s.last() == '(' {
        s.drop_last()
    } else {
        s
    }
}

/// Apply a binary operator to left operand `l` and right operand `r`.
///
/// Add, subtract and multiply wrap; divide and modulus reject a zero
/// right operand; power requires an exponent representable as a `u32`.
pub open spec fn apply_op(op: TokenV, l: i64, r: i64) -> Result<i64, ErrV> {
    match op {
        TokenV::Plus => Ok(l.wrapping_add(r)),
        TokenV::Minus => Ok(l.wrapping_sub(r)),
        TokenV::Star => Ok(l.wrapping_mul(r)),
        TokenV::Slash => if r == 0 {
            Err(ErrV::DivideByZero)
        } else {
            Ok(wrap_div(l, r))
        },
        TokenV::Modulus => if r == 0 {
            Err(ErrV::DivideByZero)
        } else {
            Ok(wrap_rem(l, r))
        },
        TokenV::Caret => if r < 0 || r > u32::MAX as i64 {
            Err(ErrV::ExponentOutOfRange)
        } else {
            Ok(wrap_pow(l, r as nat))
        },
        _ => Err(ErrV::MalformedExpression),
    }
}

/// One stack-machine step: a literal is pushed; an operator pops the
/// right operand, then the left, and pushes the applied result; a
/// function-call marker is an unsupported function; any other token
/// is a stray grouping token.
pub open spec fn machine_step(t: TokenV, st: Seq<i64>) -> Result<Seq<i64>, ErrV> {
    match t {
        TokenV::Int(v) => Ok(st.push(v)),
        TokenV::FuncCall(name) => Err(ErrV::UnsupportedFunction { name: func_name(name) }),
        TokenV::Plus | TokenV::Minus | TokenV::Star | TokenV::Slash | TokenV::Modulus
            | TokenV::Caret => {
            if st.len() < 2 {
                Err(ErrV::StackUnderflow)
            } else {
                match apply_op(t, st[st.len() - 2], st.last()) {
                    Ok(v) => Ok(st.drop_last().drop_last().push(v)),
                    Err(e) => Err(e),
                }
            }
        },
        _ => Err(ErrV::MalformedExpression),
    }
}

/// Run the stack machine over a postfix token sequence from the given
/// stack, stopping at the first error.
pub open spec fn run_machine(ts: Seq<TokenV>, st: Seq<i64>) -> Result<Seq<i64>, ErrV>
    decreases ts.len(),
{
    if ts.len() == 0 {
        Ok(st)
    } else {
        match machine_step(ts[0], st) {
            Ok(st1) => run_machine(ts.drop_first(), st1),
            Err(e) => Err(e),
        }
    }
}

/// What evaluating a whole postfix sequence yields: the machine must
/// finish with exactly one value on the stack.
pub open spec fn eval_postfix_spec(ts: Seq<TokenV>) -> Result<i64, ErrV> {
    match run_machine(ts, Seq::empty()) {
        Ok(st) => if st.len() == 1 {
            Ok(st[0])
        } else {
            Err(ErrV::MalformedExpression)
        },
        Err(e) => Err(e),
    }
}

/// The function name in a marker's text, without its trailing `(`.
fn strip_paren(name: &String) -> (r: String)
    ensures
        r@ == func_name(name@),
{
    let n = name.as_str().unicode_len();
    if n > 0 && name.as_str().get_char(n - 1) == '(' {
        let r = name.as_str().substring_char(0, n - 1).to_owned();
        proof {
            assert(r@ =~= name@.drop_last());
        }
        r
    } else {
        name.clone()
    }
}

/// Evaluate a postfix token sequence on a stack machine.
///
/// Exactly one value must remain at the end; otherwise the sequence
/// was malformed.
#[verifier::loop_isolation(false)]
pub fn evaluate_postfix(tokens: Vec<Token>) -> (r: Result<i64, EvalError>)
    ensures
        (match r {
            Ok(v) => eval_postfix_spec(tokens.deep_view()) == Ok::<i64, ErrV>(v),
            Err(e) => eval_postfix_spec(tokens.deep_view()) == Err::<i64, ErrV>(e@),
        }),
{
    let ghost input = tokens.deep_view();
    let mut stack: Vec<i64> = Vec::new();
    let mut idx: usize = 0;
    proof {
        assert(input.skip(0) =~= input);
    }
    while idx < tokens.len()
        invariant
            idx <= tokens.len(),
            run_machine(input, Seq::empty()) == run_machine(input.skip(idx as int), stack@),
        decreases tokens.len() - idx,
    {
        let ghost suffix = input.skip(idx as int);
        let ghost st0 = stack@;
        proof {
            assert(suffix[0] == input[idx as int]);
            assert(suffix.drop_first() =~= input.skip(idx as int + 1));
        }
        let token = &tokens[idx];
        match token {
            Token::Int(v) => {
                stack.push(*v);
            },
            Token::FuncCall(name) => {
                return Err(EvalError::UnsupportedFunction { name: strip_paren(name) });
            },
            Token::Plus | Token::Minus | Token::Star | Token::Slash | Token::Modulus
                | Token::Caret => {
                if stack.len() < 2 {
                    return Err(EvalError::StackUnderflow);
                }
                let rv = stack.pop().unwrap();
                let lv = stack.pop().unwrap();
                proof {
                    assert(rv == st0.last());
                    assert(lv == st0[st0.len() - 2]);
                    assert(stack@ =~= st0.drop_last().drop_last());
                }
                let applied = apply_operator(token, lv, rv);
                match applied {
                    Ok(v) => {
                        stack.push(v);
                    },
                    Err(e) => {
                        return Err(e);
                    },
                }
            },
            _ => {
                return Err(EvalError::MalformedExpression);
            },
        }
        idx = idx + 1;
    }
    if stack.len() == 1 {
        Ok(stack[0])
    } else {
        Err(EvalError::MalformedExpression)
    }
}

/// Apply one binary operator as [`apply_op`] prescribes.
fn apply_operator(op: &Token, l: i64, r: i64) -> (res: Result<i64, EvalError>)
    ensures
        (match res {
            Ok(v) => apply_op(op@, l, r) == Ok::<i64, ErrV>(v),
            Err(e) => apply_op(op@, l, r) == Err::<i64, ErrV>(e@),
        }),
{
    match op {
        Token::Plus => Ok(l.wrapping_add(r)),
        Token::Minus => Ok(l.wrapping_sub(r)),
        Token::Star => Ok(l.wrapping_mul(r)),
        Token::Slash => {
            if r == 0 {
                Err(EvalError::DivideByZero)
            } else {
                match l.checked_div(r) {
                    Some(v) => Ok(v),
                    None => Ok(i64::MIN),
                }
            }
        },
        Token::Modulus => {
            if r == 0 {
                Err(EvalError::DivideByZero)
            } else {
                match l.checked_rem(r) {
                    Some(v) => Ok(v),
                    None => Ok(0),
                }
            }
        },
        Token::Caret => {
            if r < 0 || r > u32::MAX as i64 {
                Err(EvalError::ExponentOutOfRange)
            } else {
                let e = r as u32;
                let mut acc: i64 = 1;
                let mut q: u32 = 0;
                while q < e
                    invariant
                        q <= e,
                        acc == wrap_pow(l, q as nat),
                    decreases e - q,
                {
                    acc = acc.wrapping_mul(l);
                    q = q + 1;
                }
                Ok(acc)
            }
        },
        _ => Err(EvalError::MalformedExpression),
    }
}

// ------------------------------------------------------------------
// Variable substitution and the sample driver
// ------------------------------------------------------------------

/// Every variable reference replaced by the literal `x`; all other
/// tokens unchanged, in their original order.
pub open spec fn subst_spec(ts: Seq<TokenV>, x: i64) -> Seq<TokenV> {
    ts.map_values(|t: TokenV| if t is VarX { TokenV::Int(x) } else { t })
}

/// Replace every variable-reference token by an integer literal
/// carrying `x`.
#[verifier::loop_isolation(false)]
pub fn substitute_var(tokens: &Vec<Token>, x: i64) -> (r: Vec<Token>)
    ensures
        r.deep_view() == subst_spec(tokens.deep_view(), x),
{
    let ghost input = tokens.deep_view();
    let mut result: Vec<Token> = Vec::new();
    let mut idx: usize = 0;
    while idx < tokens.len()
        invariant
            idx <= tokens.len(),
            result.deep_view() =~= subst_spec(input.take(idx as int), x),
        decreases tokens.len() - idx,
    {
        let ghost out0 = result.deep_view();
        let token = &tokens[idx];
        proof {
            assert(token@ == input[idx as int]);
        }
        match token {
            Token::VarX => {
                result.push(Token::Int(x));
                proof {
                    assert(result.deep_view() =~= out0.push(TokenV::Int(x)));
                }
            },
            _ => {
                let ghost tv = token@;
                result.push(token.dup());
                proof {
                    assert(result.deep_view() =~= out0.push(tv));
                    assert(!(tv is VarX));
                }
            },
        }
        proof {
            assert(result.deep_view() =~= subst_spec(input.take(idx as int + 1), x));
        }
        idx = idx + 1;
    }
    proof {
        assert(input.take(input.len() as int) =~= input);
    }
    result
}

/// What evaluating an expression text at sample point `x` yields:
/// tokenize, substitute the variable, convert to postfix, evaluate.
pub open spec fn evaluate_at_spec(s: Seq<char>, x: i64) -> Result<i64, ErrV> {
    match lex_spec(s) {
        Ok(ts) => eval_postfix_spec(to_postfix_spec(subst_spec(ts, x))),
        Err(e) => Err(e),
    }
}

/// Evaluate the expression text at the sample point `x`: the engine's
/// sole entry point for callers.
///
/// The call is pure; the first error from any stage is returned.
pub fn evaluate_with_var(expr: &str, x: i64) -> (r: Result<i64, EvalError>)
    ensures
        (match r {
            Ok(v) => evaluate_at_spec(expr@, x) == Ok::<i64, ErrV>(v),
            Err(e) => evaluate_at_spec(expr@, x) == Err::<i64, ErrV>(e@),
        }),
{
    let tokens = match parse(expr) {
        Ok(ts) => ts,
        Err(e) => {
            return Err(e);
        },
    };
    let substituted = substitute_var(&tokens, x);
    let postfix = infix_to_postfix(substituted);
    evaluate_postfix(postfix)
}

} // verus!
