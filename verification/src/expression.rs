//! Property expressions: a small arithmetic language over named values,
//! tokenized, converted to reverse Polish notation by the shunting-yard
//! algorithm, compiled by an engine that hands out handles, and bound to
//! object properties.
//!
//! Numbers are kept as their decimal lexemes; turning them into floating
//! point values happens at evaluation time, outside this library.
use vstd::prelude::*;
use crate::strmap::StrMap;
use crate::text::{trim_spec, trim_whitespace, unicode_whitespace, unicode_alphanumeric, unicode_alphabetic, is_whitespace, is_alphanumeric, is_alphabetic, is_digit_spec, is_digit, push_str, string_push, string_from_chars, chars_of};

verus! {

/// A token of an expression. `Number` holds the lexeme of the literal.
#[derive(Clone, Debug)]
pub enum Token {
    Number(String),
    Variable(String),
    PropRef(String),
    Func(String),
    Plus,
    Minus,
    Multiply,
    Divide,
    Modulo,
    LParen,
    RParen,
    Comma,
}

/// A token with its text as a character sequence.
pub enum TokenView {
    Number(Seq<char>),
    Variable(Seq<char>),
    PropRef(Seq<char>),
    Func(Seq<char>),
    Plus,
    Minus,
    Multiply,
    Divide,
    Modulo,
    LParen,
    RParen,
    Comma,
}

impl View for Token {
    type V = TokenView;

    open spec fn view(&self) -> TokenView {
        match self {
            Token::Number(s) => TokenView::Number(s@),
            Token::Variable(s) => TokenView::Variable(s@),
            Token::PropRef(s) => TokenView::PropRef(s@),
            Token::Func(s) => TokenView::Func(s@),
            Token::Plus => TokenView::Plus,
            Token::Minus => TokenView::Minus,
            Token::Multiply => TokenView::Multiply,
            Token::Divide => TokenView::Divide,
            Token::Modulo => TokenView::Modulo,
            Token::LParen => TokenView::LParen,
            Token::RParen => TokenView::RParen,
            Token::Comma => TokenView::Comma,
        }
    }
}

/// The views of a sequence of tokens.
pub open spec fn tokens_view(v: Seq<Token>) -> Seq<TokenView> {
    v.map_values(|t: Token| t@)
}

/// A copy of `t`.
pub fn copy_token(t: &Token) -> (r: Token)
    ensures
        r@ == t@,
{
    match t {
        Token::Number(s) => Token::Number(s.clone()),
        Token::Variable(s) => Token::Variable(s.clone()),
        Token::PropRef(s) => Token::PropRef(s.clone()),
        Token::Func(s) => Token::Func(s.clone()),
        Token::Plus => Token::Plus,
        Token::Minus => Token::Minus,
        Token::Multiply => Token::Multiply,
        Token::Divide => Token::Divide,
        Token::Modulo => Token::Modulo,
        Token::LParen => Token::LParen,
        Token::RParen => Token::RParen,
        Token::Comma => Token::Comma,
    }
}

/// Character classes the tokenizer scans over.
pub enum CharClass {
    /// Unicode white space.
    Space,
    /// ASCII digits and `.`.
    NumberPart,
    /// Unicode alphanumerics and `_`.
    IdentPart,
    /// Anything but the given quote character.
    NotQuote(char),
}

/// Whether `c` belongs to `cls`.
pub open spec fn in_class(c: char, cls: CharClass) -> bool {
    match cls {
        CharClass::Space => unicode_whitespace(c),
        CharClass::NumberPart => is_digit_spec(c) || c == '.',
        CharClass::IdentPart => unicode_alphanumeric(c) || c == '_',
        CharClass::NotQuote(q) => c != q,
    }
}

/// The first index at or after `i` whose character is not in `cls` (the
/// length when there is none).
pub open spec fn scan(chars: Seq<char>, i: int, cls: CharClass) -> int
    decreases chars.len() - i,
{
    if 0 <= i < chars.len() && in_class(chars[i], cls) {
        scan(chars, i + 1, cls)
    } else {
        i
    }
}

/// A scan never moves backwards, and from a valid index it stays within
/// the sequence.
pub proof fn lemma_scan_bounds(chars: Seq<char>, i: int, cls: CharClass)
    ensures
        scan(chars, i, cls) >= i,
        0 <= i <= chars.len() ==> scan(chars, i, cls) <= chars.len(),
        0 <= i <= chars.len() ==> (scan(chars, i, cls) == chars.len() || !in_class(chars[scan(chars, i, cls)], cls)),
    decreases chars.len() - i,
{
    if 0 <= i < chars.len() && in_class(chars[i], cls) {
        lemma_scan_bounds(chars, i + 1, cls);
    }
}

/// Whether a number literal starts at `i`: a digit, or a `.` followed by a
/// digit.
pub open spec fn starts_number(chars: Seq<char>, i: int) -> bool {
    is_digit_spec(chars[i]) || (chars[i] == '.' && i + 1 < chars.len() && is_digit_spec(chars[i + 1]))
}

/// How many times `c` occurs in `s`.
pub open spec fn count_char(s: Seq<char>, c: char) -> nat
    decreases s.len(),
{
    if s.len() == 0 {
        0
    } else {
        count_char(s.drop_last(), c) + if s.last() == c { 1nat } else { 0nat }
    }
}

/// The message for a number literal that is not a valid float (more than
/// one decimal point).
pub open spec fn invalid_number_message(s: Seq<char>) -> Seq<char> {
    "Invalid number '"@ + s + "': invalid float literal"@
}

/// The message for a character that starts no token.
pub open spec fn unexpected_message(c: char) -> Seq<char> {
    "Unexpected character: '"@ + seq![c] + "'"@
}

/// The message for unbalanced parentheses.
pub open spec fn mismatched_message() -> Seq<char> {
    "Mismatched parentheses"@
}

/// The token of a single punctuation character.
pub open spec fn punct(c: char) -> Option<TokenView> {
    if c == '+' { Some(TokenView::Plus) }
    else if c == '-' { Some(TokenView::Minus) }
    else if c == '*' { Some(TokenView::Multiply) }
    else if c == '/' { Some(TokenView::Divide) }
    else if c == '%' { Some(TokenView::Modulo) }
    else if c == '(' { Some(TokenView::LParen) }
    else if c == ')' { Some(TokenView::RParen) }
    else if c == ',' { Some(TokenView::Comma) }
    else { None }
}

/// The word `prop`.
pub open spec fn prop_word() -> Seq<char> {
    seq!['p', 'r', 'o', 'p']
}

/// After the word `prop` ending at `e`: the quoted property name of
/// `prop ( 'name' )` (or with double quotes) and the index after it. The
/// closing quote and parenthesis may be missing.
pub open spec fn prop_call(chars: Seq<char>, e: int) -> Option<(Seq<char>, int)> {
    let j = scan(chars, e, CharClass::Space);
    if j < chars.len() && chars[j] == '(' {
        let k = scan(chars, j + 1, CharClass::Space);
        if k < chars.len() && (chars[k] == '\'' || chars[k] == '"') {
            let q = chars[k];
            let pe = scan(chars, k + 1, CharClass::NotQuote(q));
            let m = if pe < chars.len() { pe + 1 } else { pe };
            let n = scan(chars, m, CharClass::Space);
            let o = if n < chars.len() && chars[n] == ')' { n + 1 } else { n };
            Some((chars.subrange(k + 1, pe), o))
        } else {
            None
        }
    } else {
        None
    }
}

/// After the word `prop` ending at `e` without a quoted name: where the
/// tokenizer resumes (past the white space, and past `(` and the white
/// space after it when there is one).
pub open spec fn prop_resume(chars: Seq<char>, e: int) -> int {
    let j = scan(chars, e, CharClass::Space);
    if j < chars.len() && chars[j] == '(' {
        scan(chars, j + 1, CharClass::Space)
    } else {
        j
    }
}

/// An identifier resuming at `p` is a function name when the next
/// character other than white space is `(`, else a variable.
pub open spec fn ident_token(chars: Seq<char>, ident: Seq<char>, p: int) -> TokenView {
    let peek = scan(chars, p, CharClass::Space);
    if peek < chars.len() && chars[peek] == '(' {
        TokenView::Func(ident)
    } else {
        TokenView::Variable(ident)
    }
}

/// `t` followed by the tokens of `r`, or the error of `r`.
pub open spec fn prepend(t: TokenView, r: Result<Seq<TokenView>, Seq<char>>) -> Result<Seq<TokenView>, Seq<char>> {
    match r {
        Ok(ts) => Ok(seq![t] + ts),
        Err(m) => Err(m),
    }
}

/// `p` followed by the tokens of `r`, or the error of `r`.
pub open spec fn prefixed(p: Seq<TokenView>, r: Result<Seq<TokenView>, Seq<char>>) -> Result<Seq<TokenView>, Seq<char>> {
    match r {
        Ok(ts) => Ok(p + ts),
        Err(m) => Err(m),
    }
}

/// The tokens of `chars` from index `i` on, or the message of the first
/// lexical error.
pub open spec fn lex_from(chars: Seq<char>, i: int) -> Result<Seq<TokenView>, Seq<char>>
    decreases chars.len() - i,
{
    if i < 0 || i >= chars.len() {
        Ok(Seq::empty())
    } else {
        let c = chars[i];
        if unicode_whitespace(c) {
            lex_from(chars, i + 1)
        } else if starts_number(chars, i) {
            let e = scan(chars, i + 1, CharClass::NumberPart);
            proof {
                lemma_scan_bounds(chars, i + 1, CharClass::NumberPart);
            }
            let s = chars.subrange(i, e);
            if count_char(s, '.') >= 2 {
                Err(invalid_number_message(s))
            } else {
                prepend(TokenView::Number(s), lex_from(chars, e))
            }
        } else if unicode_alphabetic(c) || c == '_' {
            let e = scan(chars, i + 1, CharClass::IdentPart);
            let ident = chars.subrange(i, e);
            if ident == prop_word() && prop_call(chars, e) is Some {
                let (name, o) = prop_call(chars, e).unwrap();
                proof {
                    lemma_scan_bounds(chars, i + 1, CharClass::IdentPart);
                    lemma_prop_progress(chars, e);
                }
                prepend(TokenView::PropRef(name), lex_from(chars, o))
            } else {
                let p = if ident == prop_word() { prop_resume(chars, e) } else { e };
                proof {
                    lemma_scan_bounds(chars, i + 1, CharClass::IdentPart);
                    lemma_prop_progress(chars, e);
                }
                prepend(ident_token(chars, ident, p), lex_from(chars, p))
            }
        } else {
            match punct(c) {
                Some(t) => prepend(t, lex_from(chars, i + 1)),
                None => Err(unexpected_message(c)),
            }
        }
    }
}

/// The positions after `prop` never move backwards.
pub proof fn lemma_prop_progress(chars: Seq<char>, e: int)
    requires
        0 <= e <= chars.len(),
    ensures
        e <= prop_resume(chars, e) <= chars.len(),
        prop_call(chars, e) is Some ==> e < prop_call(chars, e).unwrap().1 <= chars.len(),
{
    let j = scan(chars, e, CharClass::Space);
    lemma_scan_bounds(chars, e, CharClass::Space);
    lemma_scan_bounds(chars, j + 1, CharClass::Space);
    let k = scan(chars, j + 1, CharClass::Space);
    lemma_scan_bounds(chars, k + 1, CharClass::NotQuote(chars[k]));
    let pe = scan(chars, k + 1, CharClass::NotQuote(chars[k]));
    let m = if pe < chars.len() { pe + 1 } else { pe };
    lemma_scan_bounds(chars, m, CharClass::Space);
}

/// The tokens of an expression, or the message of its first lexical error.
pub open spec fn lex(chars: Seq<char>) -> Result<Seq<TokenView>, Seq<char>> {
    lex_from(chars, 0)
}

fn in_class_exec(c: char, cls: &CharClass) -> (r: bool)
    ensures
        r == in_class(c, *cls),
{
    match cls {
        CharClass::Space => is_whitespace(c),
        CharClass::NumberPart => is_digit(c) || c == '.',
        CharClass::IdentPart => is_alphanumeric(c) || c == '_',
        CharClass::NotQuote(q) => c != *q,
    }
}

fn scan_exec(chars: &Vec<char>, i: usize, cls: CharClass) -> (r: usize)
    requires
        i <= chars.len(),
    ensures
        r == scan(chars@, i as int, cls),
        i <= r <= chars.len(),
{
    let mut k = i;
    while k < chars.len() && in_class_exec(chars[k], &cls)
        invariant
            i <= k <= chars.len(),
            scan(chars@, i as int, cls) == scan(chars@, k as int, cls),
        decreases chars.len() - k,
    {
        k += 1;
    }
    k
}

/// `tokens_view` of a push.
pub proof fn lemma_tokens_view_push(v: Seq<Token>, t: Token)
    ensures
        tokens_view(v.push(t)) == tokens_view(v).push(t@),
{
    assert(tokens_view(v.push(t)) =~= tokens_view(v).push(t@));
}

/// Moving one token from the remainder into the prefix.
pub proof fn lemma_prefixed_step(p: Seq<TokenView>, t: TokenView, r: Result<Seq<TokenView>, Seq<char>>)
    ensures
        prefixed(p, prepend(t, r)) == prefixed(p.push(t), r),
{
    if let Ok(ts) = r {
        assert(p + (seq![t] + ts) =~= p.push(t) + ts);
    }
}

fn count_char_exec(chars: &Vec<char>, from: usize, to: usize, c: char) -> (r: usize)
    requires
        from <= to <= chars.len(),
    ensures
        r == count_char(chars@.subrange(from as int, to as int), c),
{
    let mut n: usize = 0;
    let mut k = from;
    assert(chars@.subrange(from as int, from as int) =~= Seq::<char>::empty());
    while k < to
        invariant
            from <= k <= to <= chars.len(),
            n == count_char(chars@.subrange(from as int, k as int), c),
            n <= k - from,
        decreases to - k,
    {
        assert(chars@.subrange(from as int, k + 1).drop_last() =~= chars@.subrange(from as int, k as int));
        if chars[k] == c {
            n += 1;
        }
        k += 1;
    }
    n
}

/// After the word `prop` ending at `e`: the quoted name and the index after
/// the call, or where the tokenizer resumes when there is no quoted name.
fn lex_prop(chars: &Vec<char>, e: usize) -> (r: Result<(String, usize), usize>)
    requires
        e <= chars.len(),
    ensures
        match r {
            Ok((name, o)) => prop_call(chars@, e as int) == Some((name@, o as int)) && e < o <= chars.len(),
            Err(p) => prop_call(chars@, e as int) is None && p == prop_resume(chars@, e as int) && e <= p <= chars.len(),
        },
{
    proof {
        lemma_prop_progress(chars@, e as int);
    }
    let len = chars.len();
    let j = scan_exec(chars, e, CharClass::Space);
    if j < len && chars[j] == '(' {
        let k = scan_exec(chars, j + 1, CharClass::Space);
        if k < len && (chars[k] == '\'' || chars[k] == '"') {
            let q = chars[k];
            let pe = scan_exec(chars, k + 1, CharClass::NotQuote(q));
            let name = string_from_chars(chars, k + 1, pe);
            let m = if pe < len { pe + 1 } else { pe };
            let n = scan_exec(chars, m, CharClass::Space);
            let o = if n < len && chars[n] == ')' { n + 1 } else { n };
            Ok((name, o))
        } else {
            Err(k)
        }
    } else {
        Err(j)
    }
}

fn invalid_number(chars: &Vec<char>, from: usize, to: usize) -> (m: String)
    requires
        from <= to <= chars.len(),
    ensures
        m@ == invalid_number_message(chars@.subrange(from as int, to as int)),
{
    let s = string_from_chars(chars, from, to);
    let mut m = String::new();
    push_str(&mut m, "Invalid number '");
    push_str(&mut m, s.as_str());
    push_str(&mut m, "': invalid float literal");
    assert(m@ =~= invalid_number_message(chars@.subrange(from as int, to as int)));
    m
}

fn unexpected(c: char) -> (m: String)
    ensures
        m@ == unexpected_message(c),
{
    let mut m = String::new();
    push_str(&mut m, "Unexpected character: '");
    string_push(&mut m, c);
    push_str(&mut m, "'");
    assert(m@ =~= unexpected_message(c));
    m
}

fn punct_exec(c: char) -> (r: Option<Token>)
    ensures
        match r {
            Some(t) => punct(c) == Some(t@),
            None => punct(c) is None,
        },
{
    if c == '+' { Some(Token::Plus) }
    else if c == '-' { Some(Token::Minus) }
    else if c == '*' { Some(Token::Multiply) }
    else if c == '/' { Some(Token::Divide) }
    else if c == '%' { Some(Token::Modulo) }
    else if c == '(' { Some(Token::LParen) }
    else if c == ')' { Some(Token::RParen) }
    else if c == ',' { Some(Token::Comma) }
    else { None }
}

/// The tokens of `expr`, or the message of its first lexical error.
#[verifier::rlimit(40)]
pub fn tokenize(expr: &str) -> (r: Result<Vec<Token>, String>)
    ensures
        match r {
            Ok(ts) => lex(expr@) == Ok::<Seq<TokenView>, Seq<char>>(tokens_view(ts@)),
            Err(m) => lex(expr@) == Err::<Seq<TokenView>, Seq<char>>(m@),
        },
{
    let chars = chars_of(expr);
    let len = chars.len();
    let mut tokens: Vec<Token> = Vec::new();
    let mut i: usize = 0;
    assert(tokens_view(tokens@) =~= Seq::<TokenView>::empty());
    assert(prefixed(Seq::<TokenView>::empty(), lex_from(chars@, 0)) == lex_from(chars@, 0)) by {
        if let Ok(ts) = lex_from(chars@, 0) {
            assert(Seq::<TokenView>::empty() + ts =~= ts);
        }
    }
    while i < len
        invariant
            len == chars.len(),
            chars@ == expr@,
            i <= len,
            lex(chars@) == prefixed(tokens_view(tokens@), lex_from(chars@, i as int)),
        decreases len - i,
    {
        let c = chars[i];
        if is_whitespace(c) {
            i += 1;
            continue;
        }
        if is_digit(c) || (c == '.' && i + 1 < len && is_digit(chars[i + 1])) {
            let e = scan_exec(&chars, i + 1, CharClass::NumberPart);
            let dots = count_char_exec(&chars, i, e, '.');
            if dots >= 2 {
                return Err(invalid_number(&chars, i, e));
            }
            let s = string_from_chars(&chars, i, e);
            let tok = Token::Number(s);
            proof {
                lemma_prefixed_step(tokens_view(tokens@), tok@, lex_from(chars@, e as int));
                lemma_tokens_view_push(tokens@, tok);
            }
            tokens.push(tok);
            i = e;
            continue;
        }
        if is_alphabetic(c) || c == '_' {
            let start = i;
            let e = scan_exec(&chars, i + 1, CharClass::IdentPart);
            let is_prop = e - start == 4 && chars[start] == 'p' && chars[start + 1] == 'r'
                && chars[start + 2] == 'o' && chars[start + 3] == 'p';
            assert(is_prop <==> chars@.subrange(start as int, e as int) == prop_word()) by {
                let w = chars@.subrange(start as int, e as int);
                if is_prop {
                    assert(w =~= prop_word());
                }
                if w == prop_word() {
                    assert(w.len() == 4);
                    assert(w[0] == 'p' && w[1] == 'r' && w[2] == 'o' && w[3] == 'p');
                }
            }
            let ident = string_from_chars(&chars, start, e);
            let mut p = e;
            if is_prop {
                match lex_prop(&chars, e) {
                    Ok((name, o)) => {
                        let tok = Token::PropRef(name);
                        proof {
                            lemma_prefixed_step(tokens_view(tokens@), tok@, lex_from(chars@, o as int));
                            lemma_tokens_view_push(tokens@, tok);
                        }
                        tokens.push(tok);
                        i = o;
                        continue;
                    },
                    Err(q) => {
                        p = q;
                    },
                }
            }
            let peek = scan_exec(&chars, p, CharClass::Space);
            let tok = if peek < len && chars[peek] == '(' {
                Token::Func(ident)
            } else {
                Token::Variable(ident)
            };
            proof {
                lemma_prefixed_step(tokens_view(tokens@), tok@, lex_from(chars@, p as int));
                lemma_tokens_view_push(tokens@, tok);
            }
            tokens.push(tok);
            i = p;
            continue;
        }
        match punct_exec(c) {
            Some(tok) => {
                proof {
                    lemma_prefixed_step(tokens_view(tokens@), tok@, lex_from(chars@, i + 1));
                    lemma_tokens_view_push(tokens@, tok);
                }
                tokens.push(tok);
                i += 1;
            },
            None => {
                return Err(unexpected(c));
            },
        }
    }
    assert(prefixed(tokens_view(tokens@), lex_from(chars@, i as int)) == Ok::<Seq<TokenView>, Seq<char>>(tokens_view(tokens@))) by {
        assert(tokens_view(tokens@) + Seq::<TokenView>::empty() =~= tokens_view(tokens@));
    }
    Ok(tokens)
}

/// Binding strength of an operator token (0 for every other token).
pub open spec fn precedence(t: TokenView) -> int {
    match t {
        TokenView::Plus | TokenView::Minus => 1,
        TokenView::Multiply | TokenView::Divide | TokenView::Modulo => 2,
        _ => 0,
    }
}

/// Moves tokens from the top of `stack` (its end) to `out` while the top is
/// not `(` and binds at least as strongly as `p`.
pub open spec fn drain(out: Seq<TokenView>, stack: Seq<TokenView>, p: int) -> (Seq<TokenView>, Seq<TokenView>)
    decreases stack.len(),
{
    if stack.len() > 0 && stack.last() != TokenView::LParen && precedence(stack.last()) >= p {
        drain(out.push(stack.last()), stack.drop_last(), p)
    } else {
        (out, stack)
    }
}

/// The literal `0` put before a unary minus.
pub open spec fn zero_literal() -> TokenView {
    TokenView::Number(seq!['0'])
}

/// One step of the shunting-yard algorithm on the state (output, operator
/// stack, whether the previous token leaves an operand expected), or `None`
/// for a `)` without its `(`.
pub open spec fn rpn_step(s: (Seq<TokenView>, Seq<TokenView>, bool), t: TokenView) -> Option<(Seq<TokenView>, Seq<TokenView>, bool)> {
    let out = s.0;
    let st = s.1;
    let prev_is_op = s.2;
    match t {
        TokenView::Number(_) | TokenView::Variable(_) | TokenView::PropRef(_) => Some((out.push(t), st, false)),
        TokenView::Func(_) | TokenView::LParen => Some((out, st.push(t), true)),
        TokenView::Comma => {
            let d = drain(out, st, 0);
            Some((d.0, d.1, true))
        },
        TokenView::RParen => {
            let d = drain(out, st, 0);
            if d.1.len() == 0 {
                None
            } else {
                let rest = d.1.drop_last();
                if rest.len() > 0 && rest.last() is Func {
                    Some((d.0.push(rest.last()), rest.drop_last(), false))
                } else {
                    Some((d.0, rest, false))
                }
            }
        },
        _ => {
            let out1 = if t == TokenView::Minus && prev_is_op { out.push(zero_literal()) } else { out };
            let d = drain(out1, st, precedence(t));
            Some((d.0, d.1.push(t), true))
        },
    }
}

/// The state after the first `n` tokens.
pub open spec fn rpn_run(ts: Seq<TokenView>, n: int) -> Option<(Seq<TokenView>, Seq<TokenView>, bool)>
    decreases n,
{
    if n <= 0 {
        Some((Seq::empty(), Seq::empty(), true))
    } else {
        match rpn_run(ts, n - 1) {
            Some(s) => rpn_step(s, ts[n - 1]),
            None => None,
        }
    }
}

/// Pops the remaining operators onto the output; `None` when a parenthesis
/// is left.
pub open spec fn finish(out: Seq<TokenView>, stack: Seq<TokenView>) -> Option<Seq<TokenView>>
    decreases stack.len(),
{
    if stack.len() == 0 {
        Some(out)
    } else if stack.last() == TokenView::LParen || stack.last() == TokenView::RParen {
        None
    } else {
        finish(out.push(stack.last()), stack.drop_last())
    }
}

/// The tokens in reverse Polish order, or the message for unbalanced
/// parentheses.
pub open spec fn rpn(ts: Seq<TokenView>) -> Result<Seq<TokenView>, Seq<char>> {
    match rpn_run(ts, ts.len() as int) {
        Some(s) => match finish(s.0, s.1) {
            Some(r) => Ok(r),
            None => Err(mismatched_message()),
        },
        None => Err(mismatched_message()),
    }
}

/// An operand token: a number, a variable or a property reference.
pub open spec fn is_operand(t: TokenView) -> bool {
    t is Number || t is Variable || t is PropRef
}

/// `+` or `-`.
pub open spec fn is_additive(t: TokenView) -> bool {
    t == TokenView::Plus || t == TokenView::Minus
}

/// `*`, `/` or `%`.
pub open spec fn is_multiplicative(t: TokenView) -> bool {
    t == TokenView::Multiply || t == TokenView::Divide || t == TokenView::Modulo
}

/// Operator precedence and associativity of `to_rpn` on `x a y b z`:
/// `*`, `/` and `%` bind more strongly than `+` and `-`, so
/// `x + y % z` becomes `x y z % +` and `x % y + z` becomes `x y % z +`;
/// operators of the same level group from the left, so `x - y + z` becomes
/// `x y - z +` and `x / y % z` becomes `x y / z %`.
pub proof fn law_operator_precedence(x: TokenView, a: TokenView, y: TokenView, b: TokenView, z: TokenView)
    requires
        is_operand(x),
        is_operand(y),
        is_operand(z),
        is_additive(a) || is_multiplicative(a),
        is_additive(b) || is_multiplicative(b),
    ensures
        is_additive(a) && is_multiplicative(b) ==> rpn(seq![x, a, y, b, z]) == Ok::<Seq<TokenView>, Seq<char>>(
            seq![x, y, z, b, a],
        ),
        !(is_additive(a) && is_multiplicative(b)) ==> rpn(seq![x, a, y, b, z]) == Ok::<Seq<TokenView>, Seq<char>>(
            seq![x, y, a, z, b],
        ),
{
    let ts = seq![x, a, y, b, z];
    let e = Seq::<TokenView>::empty();
    assert(rpn_run(ts, 0) == Some((e, e, true)));
    assert(rpn_run(ts, 1) == Some((e.push(x), e, false)));
    assert(drain(e.push(x), e, precedence(a)) == (e.push(x), e));
    assert(rpn_run(ts, 2) == Some((e.push(x), e.push(a), true)));
    assert(rpn_run(ts, 3) == Some((e.push(x).push(y), e.push(a), false)));
    let o3 = e.push(x).push(y);
    assert(e.push(a).drop_last() =~= e);
    assert(e.push(a).last() == a);
    if is_additive(a) && is_multiplicative(b) {
        assert(drain(o3, e.push(a), precedence(b)) == (o3, e.push(a)));
        assert(rpn_run(ts, 4) == Some((o3, e.push(a).push(b), true)));
        assert(rpn_run(ts, 5) == Some((o3.push(z), e.push(a).push(b), false)));
        assert(e.push(a).push(b).drop_last() =~= e.push(a));
        assert(finish(o3.push(z).push(b).push(a), e) == Some(o3.push(z).push(b).push(a)));
        assert(finish(o3.push(z).push(b), e.push(a)) == Some(o3.push(z).push(b).push(a)));
        assert(finish(o3.push(z), e.push(a).push(b)) == Some(o3.push(z).push(b).push(a)));
        assert(o3.push(z).push(b).push(a) =~= seq![x, y, z, b, a]);
    } else {
        assert(drain(o3.push(a), e, precedence(b)) == (o3.push(a), e));
        assert(drain(o3, e.push(a), precedence(b)) == (o3.push(a), e));
        assert(rpn_run(ts, 4) == Some((o3.push(a), e.push(b), true)));
        assert(rpn_run(ts, 5) == Some((o3.push(a).push(z), e.push(b), false)));
        assert(e.push(b).drop_last() =~= e);
        assert(finish(o3.push(a).push(z).push(b), e) == Some(o3.push(a).push(z).push(b)));
        assert(finish(o3.push(a).push(z), e.push(b)) == Some(o3.push(a).push(z).push(b)));
        assert(o3.push(a).push(z).push(b) =~= seq![x, y, a, z, b]);
    }
}

/// Once a prefix of the tokens has failed, every longer prefix fails too.
pub proof fn lemma_rpn_run_none(ts: Seq<TokenView>, n: int, m: int)
    requires
        0 <= n <= m,
        rpn_run(ts, n) is None,
    ensures
        rpn_run(ts, m) is None,
    decreases m - n,
{
    if n < m {
        lemma_rpn_run_none(ts, n, m - 1);
    }
}

fn precedence_exec(t: &Token) -> (r: i32)
    ensures
        r == precedence(t@),
        0 <= r <= 2,
{
    match t {
        Token::Plus | Token::Minus => 1,
        Token::Multiply | Token::Divide | Token::Modulo => 2,
        _ => 0,
    }
}

/// `tokens_view` of the sequence without its last token.
pub proof fn lemma_tokens_view_drop_last(v: Seq<Token>)
    requires
        v.len() > 0,
    ensures
        tokens_view(v.drop_last()) == tokens_view(v).drop_last(),
        tokens_view(v).last() == v.last()@,
{
    assert(tokens_view(v.drop_last()) =~= tokens_view(v).drop_last());
}

fn top_drains(stack: &Vec<Token>, p: i32) -> (r: bool)
    ensures
        r == (tokens_view(stack@).len() > 0 && tokens_view(stack@).last() != TokenView::LParen
            && precedence(tokens_view(stack@).last()) >= p),
{
    if stack.len() == 0 {
        return false;
    }
    let top = &stack[stack.len() - 1];
    proof {
        lemma_tokens_view_drop_last(stack@);
    }
    match top {
        Token::LParen => false,
        _ => precedence_exec(top) >= p,
    }
}

fn drain_exec(output: &mut Vec<Token>, stack: &mut Vec<Token>, p: i32)
    ensures
        (tokens_view(final(output)@), tokens_view(final(stack)@)) == drain(tokens_view(old(output)@), tokens_view(old(stack)@), p as int),
{
    while top_drains(stack, p)
        invariant
            drain(tokens_view(output@), tokens_view(stack@), p as int) == drain(tokens_view(old(output)@), tokens_view(old(stack)@), p as int),
        decreases stack.len(),
    {
        proof {
            lemma_tokens_view_drop_last(stack@);
        }
        let t = stack.pop().unwrap();
        proof {
            lemma_tokens_view_push(output@, t);
        }
        output.push(t);
    }
}

fn mismatched() -> (m: String)
    ensures
        m@ == mismatched_message(),
{
    "Mismatched parentheses".to_owned()
}

/// The tokens in reverse Polish order (a unary minus becomes a subtraction
/// from `0`), or the message for unbalanced parentheses.
#[verifier::rlimit(40)]
pub fn to_rpn(tokens: &[Token]) -> (r: Result<Vec<Token>, String>)
    ensures
        match r {
            Ok(out) => rpn(tokens_view(tokens@)) == Ok::<Seq<TokenView>, Seq<char>>(tokens_view(out@)),
            Err(m) => rpn(tokens_view(tokens@)) == Err::<Seq<TokenView>, Seq<char>>(m@),
        },
{
    let ghost tv = tokens_view(tokens@);
    let mut output: Vec<Token> = Vec::new();
    let mut stack: Vec<Token> = Vec::new();
    let mut prev_is_op = true;
    let mut i: usize = 0;
    assert(tokens_view(output@) =~= Seq::<TokenView>::empty());
    assert(tokens_view(stack@) =~= Seq::<TokenView>::empty());
    while i < tokens.len()
        invariant
            i <= tokens.len(),
            tv == tokens_view(tokens@),
            rpn_run(tv, i as int) == Some((tokens_view(output@), tokens_view(stack@), prev_is_op)),
        decreases tokens.len() - i,
    {
        let t = &tokens[i];
        assert(tv[i as int] == t@);
        match t {
            Token::Number(_) | Token::Variable(_) | Token::PropRef(_) => {
                let c = copy_token(t);
                proof {
                    lemma_tokens_view_push(output@, c);
                }
                output.push(c);
                prev_is_op = false;
            },
            Token::Func(_) | Token::LParen => {
                let c = copy_token(t);
                proof {
                    lemma_tokens_view_push(stack@, c);
                }
                stack.push(c);
                prev_is_op = true;
            },
            Token::Comma => {
                drain_exec(&mut output, &mut stack, 0);
                prev_is_op = true;
            },
            Token::RParen => {
                drain_exec(&mut output, &mut stack, 0);
                if stack.len() == 0 {
                    proof {
                        assert(tokens_view(stack@).len() == 0);
                        assert(rpn_run(tv, i + 1) is None);
                        lemma_rpn_run_none(tv, i + 1, tv.len() as int);
                    }
                    return Err(mismatched());
                }
                proof {
                    lemma_tokens_view_drop_last(stack@);
                }
                let _ = stack.pop();
                let n = stack.len();
                if n > 0 && matches!(stack[n - 1], Token::Func(_)) {
                    proof {
                        lemma_tokens_view_drop_last(stack@);
                    }
                    let f = stack.pop().unwrap();
                    proof {
                        lemma_tokens_view_push(output@, f);
                    }
                    output.push(f);
                } else {
                    proof {
                        if n > 0 {
                            lemma_tokens_view_drop_last(stack@);
                        }
                    }
                }
                prev_is_op = false;
            },
            _ => {
                let is_minus = matches!(t, Token::Minus);
                if is_minus && prev_is_op {
                    let mut z = String::new();
                    string_push(&mut z, '0');
                    assert(z@ =~= seq!['0']);
                    let zt = Token::Number(z);
                    proof {
                        lemma_tokens_view_push(output@, zt);
                    }
                    output.push(zt);
                }
                let p = precedence_exec(t);
                drain_exec(&mut output, &mut stack, p);
                let c = copy_token(t);
                proof {
                    lemma_tokens_view_push(stack@, c);
                }
                stack.push(c);
                prev_is_op = true;
            },
        }
        i += 1;
    }
    assert(tv.len() == tokens.len());
    while stack.len() > 0
        invariant
            tv == tokens_view(tokens@),
            rpn_run(tv, tv.len() as int) is Some,
            finish(rpn_run(tv, tv.len() as int).unwrap().0, rpn_run(tv, tv.len() as int).unwrap().1)
                == finish(tokens_view(output@), tokens_view(stack@)),
        decreases stack.len(),
    {
        proof {
            lemma_tokens_view_drop_last(stack@);
        }
        let ghost before = tokens_view(stack@);
        let top = stack.pop().unwrap();
        match top {
            Token::LParen | Token::RParen => {
                assert(before.last() == top@);
                assert(finish(tokens_view(output@), before) is None);
                return Err(mismatched());
            },
            _ => {
                proof {
                    lemma_tokens_view_push(output@, top);
                }
                output.push(top);
            },
        }
    }
    Ok(output)
}

/// What parsing an expression gives: its tokens in reverse Polish order, or
/// the message of the first lexical error, else of unbalanced parentheses.
pub open spec fn parse_spec(s: Seq<char>) -> Result<Seq<TokenView>, Seq<char>> {
    match lex(s) {
        Ok(ts) => rpn(ts),
        Err(m) => Err(m),
    }
}

/// An expression in reverse Polish order.
#[derive(Clone, Debug)]
pub struct CompiledExpression {
    pub rpn: Vec<Token>,
}

impl CompiledExpression {
    /// The tokens in order.
    pub open spec fn rpn_view(&self) -> Seq<TokenView> {
        tokens_view(self.rpn@)
    }

    /// Parses an infix expression.
    pub fn parse(expr: &str) -> (r: Result<CompiledExpression, String>)
        ensures
            match r {
                Ok(c) => parse_spec(expr@) == Ok::<Seq<TokenView>, Seq<char>>(c.rpn_view()),
                Err(m) => parse_spec(expr@) == Err::<Seq<TokenView>, Seq<char>>(m@),
            },
    {
        let tokens = tokenize(expr)?;
        let rpn = to_rpn(tokens.as_slice())?;
        Ok(CompiledExpression { rpn })
    }
}

/// Handles are increasing and each is below the next one to hand out.
pub open spec fn handles_ordered(s: Seq<(u64, CompiledExpression)>, next: u64) -> bool {
    &&& next >= 1
    &&& forall|i: int, j: int| 0 <= i < j < s.len() ==> s[i].0 < s[j].0
    &&& forall|i: int| 0 <= i < s.len() ==> 1 <= #[trigger] s[i].0 < next
}

/// Whether some entry has handle `h`.
pub open spec fn has_handle(s: Seq<(u64, CompiledExpression)>, h: u64) -> bool {
    exists|i: int| 0 <= i < s.len() && s[i].0 == h
}

/// The compiled expressions by handle.
pub open spec fn handle_map(s: Seq<(u64, CompiledExpression)>) -> Map<u64, Seq<TokenView>> {
    Map::new(
        |h: u64| has_handle(s, h),
        |h: u64| s[choose|i: int| 0 <= i < s.len() && s[i].0 == h].1.rpn_view(),
    )
}

/// With increasing handles, the entry at `i` is what the map gives for its
/// handle.
pub proof fn lemma_handle_map_at(s: Seq<(u64, CompiledExpression)>, i: int)
    requires
        forall|a: int, b: int| 0 <= a < b < s.len() ==> s[a].0 < s[b].0,
        0 <= i < s.len(),
    ensures
        handle_map(s).contains_key(s[i].0),
        handle_map(s)[s[i].0] == s[i].1.rpn_view(),
{
    assert(has_handle(s, s[i].0));
    let c = choose|k: int| 0 <= k < s.len() && s[k].0 == s[i].0;
    if c < i {
        assert(s[c].0 < s[i].0);
    } else if c > i {
        assert(s[i].0 < s[c].0);
    }
}

/// Appending a handle larger than all others adds it to the map.
pub proof fn lemma_handle_map_push(s: Seq<(u64, CompiledExpression)>, h: u64, c: CompiledExpression)
    requires
        forall|a: int, b: int| 0 <= a < b < s.len() ==> s[a].0 < s[b].0,
        forall|a: int| 0 <= a < s.len() ==> #[trigger] s[a].0 < h,
    ensures
        handle_map(s.push((h, c))) == handle_map(s).insert(h, c.rpn_view()),
        forall|a: int, b: int| 0 <= a < b < s.push((h, c)).len() ==> s.push((h, c))[a].0 < s.push((h, c))[b].0,
{
    let t = s.push((h, c));
    assert(forall|a: int, b: int| 0 <= a < b < t.len() ==> t[a].0 < t[b].0) by {
        assert forall|a: int, b: int| 0 <= a < b < t.len() implies t[a].0 < t[b].0 by {
            if b == s.len() {
                assert(t[a] == s[a]);
            } else {
                assert(t[a] == s[a] && t[b] == s[b]);
            }
        }
    }
    assert forall|k: u64| #[trigger] has_handle(t, k) == (has_handle(s, k) || k == h) by {
        if has_handle(s, k) {
            let i = choose|i: int| 0 <= i < s.len() && s[i].0 == k;
            assert(t[i] == s[i]);
        }
        if k == h {
            assert(t[s.len() as int].0 == h);
        }
        if has_handle(t, k) && k != h {
            let i = choose|i: int| 0 <= i < t.len() && t[i].0 == k;
            assert(i < s.len());
            assert(s[i] == t[i]);
        }
    }
    assert forall|k: u64| #[trigger] handle_map(t).contains_key(k) implies handle_map(t)[k] == handle_map(s).insert(h, c.rpn_view())[k] by {
        let i = choose|i: int| 0 <= i < t.len() && t[i].0 == k;
        lemma_handle_map_at(t, i);
        if i < s.len() {
            assert(t[i] == s[i]);
            lemma_handle_map_at(s, i);
        }
    }
    assert(handle_map(t) =~= handle_map(s).insert(h, c.rpn_view()));
}

/// Removing the entry at `i` removes its handle from the map.
pub proof fn lemma_handle_map_remove(s: Seq<(u64, CompiledExpression)>, i: int)
    requires
        forall|a: int, b: int| 0 <= a < b < s.len() ==> s[a].0 < s[b].0,
        0 <= i < s.len(),
    ensures
        handle_map(s.remove(i)) == handle_map(s).remove(s[i].0),
        forall|a: int, b: int| 0 <= a < b < s.remove(i).len() ==> s.remove(i)[a].0 < s.remove(i)[b].0,
{
    let t = s.remove(i);
    let h = s[i].0;
    assert forall|a: int, b: int| 0 <= a < b < t.len() implies t[a].0 < t[b].0 by {
        let a2 = if a < i { a } else { a + 1 };
        let b2 = if b < i { b } else { b + 1 };
        assert(t[a] == s[a2] && t[b] == s[b2]);
    }
    assert forall|k: u64| #[trigger] has_handle(t, k) == (has_handle(s, k) && k != h) by {
        if has_handle(t, k) {
            let j = choose|j: int| 0 <= j < t.len() && t[j].0 == k;
            let j2 = if j < i { j } else { j + 1 };
            assert(t[j] == s[j2]);
            if j2 < i { assert(s[j2].0 < s[i].0); } else { assert(s[i].0 < s[j2].0); }
        }
        if has_handle(s, k) && k != h {
            let j = choose|j: int| 0 <= j < s.len() && s[j].0 == k;
            if j < i { assert(t[j] == s[j]); } else { assert(t[j - 1] == s[j]); }
        }
    }
    assert forall|k: u64| #[trigger] handle_map(t).contains_key(k) implies handle_map(t)[k] == handle_map(s)[k] by {
        let j = choose|j: int| 0 <= j < t.len() && t[j].0 == k;
        lemma_handle_map_at(t, j);
        let j2 = if j < i { j } else { j + 1 };
        assert(t[j] == s[j2]);
        lemma_handle_map_at(s, j2);
    }
    assert(handle_map(t) =~= handle_map(s).remove(h));
}

/// An expression engine: it compiles scripts and keeps the compiled forms
/// under handles (never 0) until they are released.
pub struct ExpressionEngine {
    next_handle: u64,
    compiled: Vec<(u64, CompiledExpression)>,
}

impl ExpressionEngine {
    /// The compiled expressions by handle.
    pub closed spec fn compiled_view(&self) -> Map<u64, Seq<TokenView>> {
        handle_map(self.compiled@)
    }

    /// The handle the next successful compilation gets.
    pub closed spec fn next_handle_view(&self) -> u64 {
        self.next_handle
    }

    /// Handles are increasing and below the next one.
    pub closed spec fn wf(&self) -> bool {
        handles_ordered(self.compiled@, self.next_handle)
    }

    /// An engine with nothing compiled; the first handle is 1.
    pub fn new() -> (e: Self)
        ensures
            e.wf(),
            e.compiled_view() == Map::<u64, Seq<TokenView>>::empty(),
            e.next_handle_view() == 1,
    {
        let e = ExpressionEngine { next_handle: 1, compiled: Vec::new() };
        assert(e.compiled_view() =~= Map::<u64, Seq<TokenView>>::empty());
        e
    }

    /// Compiles `script`: on success it is kept under a fresh handle, which
    /// is returned; 0 when it does not parse (or the handles are used up).
    pub fn compile(&mut self, script: &str) -> (h: u64)
        requires
            old(self).wf(),
        ensures
            final(self).wf(),
            match parse_spec(script@) {
                Ok(rpn) => if old(self).next_handle_view() < u64::MAX {
                    h == old(self).next_handle_view() && h != 0
                        && !old(self).compiled_view().contains_key(h)
                        && final(self).compiled_view() == old(self).compiled_view().insert(h, rpn)
                        && final(self).next_handle_view() == h + 1
                } else {
                    h == 0 && final(self).compiled_view() == old(self).compiled_view()
                        && final(self).next_handle_view() == old(self).next_handle_view()
                },
                Err(_) => h == 0 && final(self).compiled_view() == old(self).compiled_view()
                    && final(self).next_handle_view() == old(self).next_handle_view(),
            },
    {
        match CompiledExpression::parse(script) {
            Ok(c) => {
                if self.next_handle == u64::MAX {
                    return 0;
                }
                let h = self.next_handle;
                proof {
                    lemma_handle_map_push(self.compiled@, h, c);
                    if handle_map(self.compiled@).contains_key(h) {
                        let i = choose|i: int| 0 <= i < self.compiled@.len() && self.compiled@[i].0 == h;
                        assert(self.compiled@[i].0 < h);
                    }
                }
                let ghost s0 = self.compiled@;
                self.compiled.push((h, c));
                self.next_handle = h + 1;
                assert forall|k: int| 0 <= k < self.compiled@.len() implies 1 <= #[trigger] self.compiled@[k].0 < self.next_handle by {
                    if k < s0.len() { assert(self.compiled@[k] == s0[k]); }
                }
                h
            },
            Err(_) => 0,
        }
    }

    /// The compiled expression under `handle`.
    pub fn get(&self, handle: u64) -> (r: Option<&CompiledExpression>)
        requires
            self.wf(),
        ensures
            r is Some == self.compiled_view().contains_key(handle),
            r matches Some(c) ==> c.rpn_view() == self.compiled_view()[handle],
    {
        let mut i: usize = 0;
        while i < self.compiled.len()
            invariant
                i <= self.compiled.len(),
                handles_ordered(self.compiled@, self.next_handle),
                forall|k: int| 0 <= k < i ==> self.compiled@[k].0 != handle,
            decreases self.compiled.len() - i,
        {
            if self.compiled[i].0 == handle {
                proof {
                    lemma_handle_map_at(self.compiled@, i as int);
                }
                return Some(&self.compiled[i].1);
            }
            i += 1;
        }
        None
    }

    /// Forgets the expression under `handle` (nothing when there is none).
    pub fn release(&mut self, handle: u64)
        requires
            old(self).wf(),
        ensures
            final(self).wf(),
            final(self).compiled_view() == old(self).compiled_view().remove(handle),
            final(self).next_handle_view() == old(self).next_handle_view(),
    {
        let mut i: usize = 0;
        while i < self.compiled.len()
            invariant
                i <= self.compiled.len(),
                self.compiled@ == old(self).compiled@,
                self.next_handle == old(self).next_handle,
                handles_ordered(self.compiled@, self.next_handle),
                forall|k: int| 0 <= k < i ==> self.compiled@[k].0 != handle,
            decreases self.compiled.len() - i,
        {
            if self.compiled[i].0 == handle {
                proof {
                    lemma_handle_map_remove(self.compiled@, i as int);
                }
                let ghost s0 = self.compiled@;
                self.compiled.remove(i);
                assert forall|k: int| 0 <= k < self.compiled@.len() implies 1 <= #[trigger] self.compiled@[k].0 < self.next_handle by {
                    if k < i { assert(self.compiled@[k] == s0[k]); } else { assert(self.compiled@[k] == s0[k + 1]); }
                }
                return;
            }
            i += 1;
        }
        assert(handle_map(self.compiled@) =~= handle_map(self.compiled@).remove(handle));
    }
}

/// An expression bound to a property.
#[derive(Clone, Debug)]
pub struct ExpressionBinding {
    pub script: String,
    pub enabled: bool,
    pub compiled_handle: u64,
}

/// The expressions bound to the properties of an object, by property key.
pub struct PropertyExpressions {
    pub bindings: StrMap<ExpressionBinding>,
}

/// The bindings that run, in storage order: those enabled and holding a
/// compiled expression (a handle other than 0), as property key and
/// handle.
pub open spec fn runnable(entries: Seq<(String, ExpressionBinding)>) -> Seq<(Seq<char>, u64)>
    decreases entries.len(),
{
    if entries.len() == 0 {
        Seq::empty()
    } else {
        let rest = runnable(entries.drop_last());
        let (k, b) = entries.last();
        if b.enabled && b.compiled_handle != 0 {
            rest.push((k@, b.compiled_handle))
        } else {
            rest
        }
    }
}

impl PropertyExpressions {
    /// The bindings by property key.
    pub open spec fn bindings_view(&self) -> Map<Seq<char>, ExpressionBinding> {
        self.bindings@
    }

    /// No property is bound twice.
    pub open spec fn wf(&self) -> bool {
        self.bindings.wf()
    }

    /// No expressions.
    pub fn new() -> (p: Self)
        ensures
            p.wf(),
            p.bindings_view() == Map::<Seq<char>, ExpressionBinding>::empty(),
    {
        PropertyExpressions { bindings: StrMap::new() }
    }

    /// The bindings to evaluate on a frame (see `runnable`): each enabled
    /// binding with a compiled expression, as its property key and handle.
    pub fn runnable_bindings(&self) -> (r: Vec<(&str, u64)>)
        ensures
            r@.map_values(|e: (&str, u64)| (e.0@, e.1)) == runnable(self.bindings.entries_view()),
    {
        let ghost es = self.bindings.entries_view();
        let mut out: Vec<(&str, u64)> = Vec::new();
        let mut i: usize = 0;
        assert(es.take(0) =~= Seq::<(String, ExpressionBinding)>::empty());
        while i < self.bindings.len()
            invariant
                i <= es.len(),
                es == self.bindings.entries_view(),
                out@.map_values(|e: (&str, u64)| (e.0@, e.1)) == runnable(es.take(i as int)),
            decreases es.len() - i,
        {
            let e = self.bindings.entry_at(i);
            let ghost before = out@.map_values(|e: (&str, u64)| (e.0@, e.1));
            assert(es.take(i + 1).drop_last() =~= es.take(i as int));
            assert(es.take(i + 1).last() == es[i as int]);
            if e.1.enabled && e.1.compiled_handle != 0 {
                let item = (e.0.as_str(), e.1.compiled_handle);
                out.push(item);
                assert(out@.map_values(|e: (&str, u64)| (e.0@, e.1)) =~= before.push((e.0@, e.1.compiled_handle)));
            }
            i += 1;
        }
        assert(es.take(i as int) =~= es);
        out
    }

    /// The script and enabled flag bound to `prop_key`.
    pub fn get_expression(&self, prop_key: &str) -> (r: Option<(&str, bool)>)
        requires
            self.wf(),
        ensures
            r is Some == self.bindings_view().contains_key(prop_key@),
            r matches Some((s, en)) ==> s@ == self.bindings_view()[prop_key@].script@
                && en == self.bindings_view()[prop_key@].enabled,
    {
        match self.bindings.get(prop_key) {
            Some(b) => Some((b.script.as_str(), b.enabled)),
            None => None,
        }
    }

    /// Unbinds `prop_key`, releasing its compiled expression; whether it
    /// was bound.
    pub fn remove_expression(&mut self, engine: &mut ExpressionEngine, prop_key: &str) -> (r: bool)
        requires
            old(self).wf(),
            old(engine).wf(),
        ensures
            final(self).wf(),
            final(engine).wf(),
            r == old(self).bindings_view().contains_key(prop_key@),
            final(self).bindings_view() == old(self).bindings_view().remove(prop_key@),
            final(engine).next_handle_view() == old(engine).next_handle_view(),
            final(engine).compiled_view() == if r && old(self).bindings_view()[prop_key@].compiled_handle != 0 {
                old(engine).compiled_view().remove(old(self).bindings_view()[prop_key@].compiled_handle)
            } else {
                old(engine).compiled_view()
            },
    {
        match self.bindings.remove(prop_key) {
            Some(b) => {
                if b.compiled_handle != 0 {
                    engine.release(b.compiled_handle);
                }
                true
            },
            None => false,
        }
    }

    /// Binds the trimmed `script` to `prop_key`. An empty script unbinds
    /// the property; a script that does not parse or compile changes
    /// nothing. On success the previous compiled expression is released.
    /// Whether a new binding was made.
    pub fn set_expression(&mut self, engine: &mut ExpressionEngine, prop_key: &str, script: &str, enabled: bool) -> (r: bool)
        requires
            old(self).wf(),
            old(engine).wf(),
        ensures
            final(self).wf(),
            final(engine).wf(),
            ({
                let t = trim_spec(script@);
                let before = old(self).bindings_view();
                let had = before.contains_key(prop_key@);
                let old_handle = before[prop_key@].compiled_handle;
                if t.len() == 0 {
                    &&& !r
                    &&& final(self).bindings_view() == before.remove(prop_key@)
                    &&& final(engine).next_handle_view() == old(engine).next_handle_view()
                    &&& final(engine).compiled_view() == if had && old_handle != 0 {
                        old(engine).compiled_view().remove(old_handle)
                    } else {
                        old(engine).compiled_view()
                    }
                } else if parse_spec(t) is Err || old(engine).next_handle_view() == u64::MAX {
                    &&& !r
                    &&& final(self).bindings_view() == before
                    &&& final(engine).compiled_view() == old(engine).compiled_view()
                    &&& final(engine).next_handle_view() == old(engine).next_handle_view()
                } else {
                    let h = old(engine).next_handle_view();
                    let added = old(engine).compiled_view().insert(h, parse_spec(t)->Ok_0);
                    &&& r
                    &&& final(self).bindings_view().dom() == before.dom().insert(prop_key@)
                    &&& (forall|k: Seq<char>| k != prop_key@ && #[trigger] before.contains_key(k)
                        ==> final(self).bindings_view()[k] == before[k])
                    &&& final(self).bindings_view()[prop_key@].script@ == t
                    &&& final(self).bindings_view()[prop_key@].enabled == enabled
                    &&& final(self).bindings_view()[prop_key@].compiled_handle == h
                    &&& final(engine).next_handle_view() == h + 1
                    &&& final(engine).compiled_view() == if had && old_handle != 0 {
                        added.remove(old_handle)
                    } else {
                        added
                    }
                }
            }),
    {
        let trimmed = trim_whitespace(script);
        if trimmed.unicode_len() == 0 {
            self.remove_expression(engine, prop_key);
            return false;
        }
        if CompiledExpression::parse(trimmed.as_str()).is_err() {
            return false;
        }
        let handle = engine.compile(trimmed.as_str());
        if handle == 0 {
            return false;
        }
        let old_handle = match self.bindings.get(prop_key) {
            Some(b) => b.compiled_handle,
            None => 0,
        };
        if old_handle != 0 {
            engine.release(old_handle);
        }
        let key = prop_key.to_owned();
        self.bindings.insert(key, ExpressionBinding { script: trimmed, enabled, compiled_handle: handle });
        true
    }
}

/// Releasing the handle that a compilation just handed out restores the
/// compiled expressions as they were before it.
pub proof fn law_release_undoes_compile(before: Map<u64, Seq<TokenView>>, h: u64, rpn: Seq<TokenView>)
    requires
        !before.contains_key(h),
    ensures
        before.insert(h, rpn).remove(h) == before,
{
    assert(before.insert(h, rpn).remove(h) =~= before);
}

} // verus!
