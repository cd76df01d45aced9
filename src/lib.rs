//! Recursive-descent parser for arithmetic expressions over `f32` literals.
//!
//! Grammar (blanks are spaces and tabs):
//!   expr   := term (('+' | '-') term)*
//!   term   := atomic (('*' | '/') atomic)*
//!   atomic := blanks '(' expr ')' blanks | blanks float blanks
//!
//! Each repetition is folded left, as `op(accumulator, new_operand)`.
//! A literal leaf holds the bit pattern of the `f32` that nom's float lexer gave.
use vstd::prelude::*;

verus! {

/// Abstract syntax tree of an expression; `EVal` holds `f32::to_bits` of the literal.
#[derive(Debug, PartialEq)]
pub enum Expr {
    EVal(u32),
    EAdd(Box<Expr>, Box<Expr>),
    ESub(Box<Expr>, Box<Expr>),
    EMul(Box<Expr>, Box<Expr>),
    EDiv(Box<Expr>, Box<Expr>),
}

/// The input holds no expression at its start.
#[derive(Debug, PartialEq, Eq)]
pub struct ParseFailure;

pub open spec fn is_blank(c: char) -> bool {
    c == ' ' || c == '\t'
}

/// The text with its leading spaces and tabs removed.
pub open spec fn skip_blanks(s: Seq<char>) -> Seq<char>
    decreases s.len(),
{
    if s.len() > 0 && is_blank(s[0]) {
        skip_blanks(s.drop_first())
    } else {
        s
    }
}

/// What nom's `float` reads at the start of a text: the number of characters
/// it consumes and the bits of the `f32` it yields, or `None` when it fails.
pub uninterp spec fn float_scan(s: Seq<char>) -> Option<(nat, u32)>;

pub open spec fn is_mul_op(c: char) -> bool {
    c == '*' || c == '/'
}

pub open spec fn is_add_op(c: char) -> bool {
    c == '+' || c == '-'
}

/// The node that operator `op` builds from `left` and `right`.
pub open spec fn combine(op: char, left: Expr, right: Expr) -> Expr {
    if op == '+' {
        Expr::EAdd(Box::new(left), Box::new(right))
    } else if op == '-' {
        Expr::ESub(Box::new(left), Box::new(right))
    } else if op == '*' {
        Expr::EMul(Box::new(left), Box::new(right))
    } else {
        Expr::EDiv(Box::new(left), Box::new(right))
    }
}

/// A number literal with blanks on both sides; yields the rest of the text and the leaf.
pub open spec fn number_spec(s: Seq<char>) -> Option<(Seq<char>, Expr)> {
    let t = skip_blanks(s);
    match float_scan(t) {
        Some((n, b)) => if 0 < t.len() && n <= t.len() {
            Some((skip_blanks(t.skip(n as int)), Expr::EVal(b)))
        } else {
            None
        },
        None => None,
    }
}

/// A parenthesised expression, tried first, else a number literal.
pub open spec fn atomic_spec(s: Seq<char>) -> Option<(Seq<char>, Expr)>
    decreases s.len(), 1int,
{
    let t = skip_blanks(s);
    let paren = if t.len() > 0 && t[0] == '(' && t.len() <= s.len() {
        match expr_spec(t.drop_first()) {
            Some((r, e)) => if r.len() > 0 && r[0] == ')' {
                Some((skip_blanks(r.drop_first()), e))
            } else {
                None
            },
            None => None,
        }
    } else {
        None
    };
    match paren {
        Some(x) => Some(x),
        None => number_spec(s),
    }
}

/// Zero or more `('*' | '/') atomic` pairs folded onto `acc`; stops at the first non-match.
pub open spec fn term_tail(s: Seq<char>, acc: Expr) -> (Seq<char>, Expr)
    decreases s.len(), 2int,
{
    if s.len() > 0 && is_mul_op(s[0]) {
        match atomic_spec(s.drop_first()) {
            Some((r, e)) => if r.len() < s.len() {
                term_tail(r, combine(s[0], acc, e))
            } else {
                (s, acc)
            },
            None => (s, acc),
        }
    } else {
        (s, acc)
    }
}

pub open spec fn term_spec(s: Seq<char>) -> Option<(Seq<char>, Expr)>
    decreases s.len(), 3int,
{
    match atomic_spec(s) {
        Some((r, e)) => if r.len() <= s.len() {
            Some(term_tail(r, e))
        } else {
            None
        },
        None => None,
    }
}

/// Zero or more `('+' | '-') term` pairs folded onto `acc`; stops at the first non-match.
pub open spec fn expr_tail(s: Seq<char>, acc: Expr) -> (Seq<char>, Expr)
    decreases s.len(), 4int,
{
    if s.len() > 0 && is_add_op(s[0]) {
        match term_spec(s.drop_first()) {
            Some((r, e)) => if r.len() < s.len() {
                expr_tail(r, combine(s[0], acc, e))
            } else {
                (s, acc)
            },
            None => (s, acc),
        }
    } else {
        (s, acc)
    }
}

/// The expression at the start of `s`: the unconsumed rest and the tree, or `None`.
pub open spec fn expr_spec(s: Seq<char>) -> Option<(Seq<char>, Expr)>
    decreases s.len(), 5int,
{
    match term_spec(s) {
        Some((r, e)) => if r.len() <= s.len() {
            Some(expr_tail(r, e))
        } else {
            None
        },
        None => None,
    }
}

/// An executable result matches a spec result, and its rest is no longer than `input`.
pub open spec fn matches_spec(
    input: Seq<char>,
    r: Option<(&str, Expr)>,
    m: Option<(Seq<char>, Expr)>,
) -> bool {
    match r {
        Some((rest, e)) => m == Some((rest@, e)) && rest@.len() <= input.len(),
        None => m is None,
    }
}

/// Relies on nom's `space0`: it strips the leading spaces and tabs.
#[verifier::external_body]
fn skip_space(input: &str) -> (r: &str)
    ensures
        r@ == skip_blanks(input@),
{
    match nom::character::complete::space0::<&str, nom::error::Error<&str>>(input) {
        Ok((rest, _)) => rest,
        Err(_) => input,
    }
}

/// Relies on nom's `char`: it consumes `c` when the text starts with it, else fails.
#[verifier::external_body]
fn eat_char(input: &str, c: char) -> (r: Option<&str>)
    ensures
        match r {
            Some(rest) => input@.len() > 0 && input@[0] == c && rest@ == input@.drop_first(),
            None => !(input@.len() > 0 && input@[0] == c),
        },
{
    nom::character::complete::char::<&str, nom::error::Error<&str>>(c)(input).ok().map(|p| p.0)
}

/// Relies on nom's `float`: on success it returns the unconsumed suffix of the text
/// and the number, here as its bits; on an empty text it fails.
#[verifier::external_body]
fn scan_float(input: &str) -> (r: Option<(&str, u32)>)
    ensures
        match r {
            Some((rest, bits)) => rest@.len() <= input@.len() && rest@ == input@.skip(
                input@.len() - rest@.len(),
            ) && float_scan(input@) == Some(((input@.len() - rest@.len()) as nat, bits)),
            None => float_scan(input@) is None,
        },
        input@.len() == 0 ==> r is None,
{
    match nom::number::complete::float::<&str, nom::error::Error<&str>>(input) {
        Ok((rest, f)) => Some((rest, f.to_bits())),
        Err(_) => None,
    }
}

proof fn lemma_skip_blanks_len(s: Seq<char>)
    ensures
        skip_blanks(s).len() <= s.len(),
    decreases s.len(),
{
    if s.len() > 0 && is_blank(s[0]) {
        lemma_skip_blanks_len(s.drop_first());
    }
}

/// A text that nom's float lexer reads whole, and that starts with neither a blank
/// nor a parenthesis, parses to that one literal with nothing left over.
pub proof fn lemma_single_literal(s: Seq<char>, bits: u32)
    requires
        s.len() > 0,
        !is_blank(s[0]),
        s[0] != '(',
        float_scan(s) == Some((s.len(), bits)),
    ensures
        expr_spec(s) == Some((Seq::<char>::empty(), Expr::EVal(bits))),
{
    assert(skip_blanks(s) == s);
    assert(s.skip(s.len() as int) =~= Seq::<char>::empty());
    assert(skip_blanks(Seq::<char>::empty()) == Seq::<char>::empty());
    assert(number_spec(s) == Some((Seq::<char>::empty(), Expr::EVal(bits))));
    assert(atomic_spec(s) == Some((Seq::<char>::empty(), Expr::EVal(bits))));
    let e = Expr::EVal(bits);
    assert(term_tail(Seq::<char>::empty(), e) == (Seq::<char>::empty(), e));
    assert(term_spec(s) == Some((Seq::<char>::empty(), e)));
    assert(expr_tail(Seq::<char>::empty(), e) == (Seq::<char>::empty(), e));
}

proof fn lemma_atomic_rest_len(s: Seq<char>)
    ensures
        atomic_spec(s) matches Some((r, _)) ==> r.len() <= s.len(),
    decreases s.len(), 1int,
{
    let t = skip_blanks(s);
    lemma_skip_blanks_len(s);
    if t.len() > 0 && t[0] == '(' {
        lemma_expr_rest_len(t.drop_first());
        if let Some((r, e)) = expr_spec(t.drop_first()) {
            if r.len() > 0 && r[0] == ')' {
                lemma_skip_blanks_len(r.drop_first());
            }
        }
    }
    if let Some((n, b)) = float_scan(t) {
        if 0 < t.len() && n <= t.len() {
            lemma_skip_blanks_len(t.skip(n as int));
        }
    }
}

proof fn lemma_term_tail_rest_len(s: Seq<char>, acc: Expr)
    ensures
        term_tail(s, acc).0.len() <= s.len(),
    decreases s.len(), 2int,
{
    if s.len() > 0 && is_mul_op(s[0]) {
        if let Some((r, e)) = atomic_spec(s.drop_first()) {
            if r.len() < s.len() {
                lemma_term_tail_rest_len(r, combine(s[0], acc, e));
            }
        }
    }
}

proof fn lemma_term_rest_len(s: Seq<char>)
    ensures
        term_spec(s) matches Some((r, _)) ==> r.len() <= s.len(),
    decreases s.len(), 3int,
{
    if let Some((r, e)) = atomic_spec(s) {
        if r.len() <= s.len() {
            lemma_term_tail_rest_len(r, e);
        }
    }
}

proof fn lemma_expr_tail_rest_len(s: Seq<char>, acc: Expr)
    ensures
        expr_tail(s, acc).0.len() <= s.len(),
    decreases s.len(), 4int,
{
    if s.len() > 0 && is_add_op(s[0]) {
        if let Some((r, e)) = term_spec(s.drop_first()) {
            if r.len() < s.len() {
                lemma_expr_tail_rest_len(r, combine(s[0], acc, e));
            }
        }
    }
}

proof fn lemma_expr_rest_len(s: Seq<char>)
    ensures
        expr_spec(s) matches Some((r, _)) ==> r.len() <= s.len(),
    decreases s.len(), 5int,
{
    if let Some((r, e)) = term_spec(s) {
        if r.len() <= s.len() {
            lemma_expr_tail_rest_len(r, e);
        }
    }
}

proof fn lemma_skip_blanks_prefix(b: Seq<char>, s: Seq<char>)
    requires
        forall|i: int| 0 <= i < b.len() ==> is_blank(#[trigger] b[i]),
    ensures
        skip_blanks(b + s) == skip_blanks(s),
    decreases b.len(),
{
    if b.len() > 0 {
        assert((b + s).drop_first() =~= b.drop_first() + s);
        lemma_skip_blanks_prefix(b.drop_first(), s);
    } else {
        assert(b + s =~= s);
    }
}

/// Spaces and tabs in front of an expression change neither its tree nor its rest.
pub proof fn lemma_leading_blanks(b: Seq<char>, s: Seq<char>)
    requires
        forall|i: int| 0 <= i < b.len() ==> is_blank(#[trigger] b[i]),
    ensures
        expr_spec(b + s) == expr_spec(s),
{
    lemma_skip_blanks_prefix(b, s);
    lemma_skip_blanks_len(s);
    lemma_atomic_rest_len(s);
    lemma_atomic_rest_len(b + s);
    assert(atomic_spec(b + s) == atomic_spec(s));
    assert(term_spec(b + s) == term_spec(s));
    lemma_term_rest_len(s);
    lemma_term_rest_len(b + s);
}

/// Wrapping in parentheses: where the expression at the start of `x` yields tree `t`
/// and stops at a `)` followed only by blanks, then blanks, `(` and `x` together
/// parse to the same tree `t` with nothing left over.
pub proof fn lemma_parenthesized(b: Seq<char>, x: Seq<char>, r: Seq<char>, t: Expr)
    requires
        forall|i: int| 0 <= i < b.len() ==> is_blank(#[trigger] b[i]),
        expr_spec(x) == Some((r, t)),
        r.len() > 0,
        r[0] == ')',
        forall|i: int| 1 <= i < r.len() ==> is_blank(#[trigger] r[i]),
    ensures
        expr_spec(b + seq!['('] + x) == Some((Seq::<char>::empty(), t)),
{
    let p = seq!['('] + x;
    assert(b + seq!['('] + x =~= b + p);
    lemma_leading_blanks(b, p);
    assert(skip_blanks(p) == p);
    assert(p.drop_first() =~= x);
    let tail = r.drop_first();
    assert forall|i: int| 0 <= i < tail.len() implies is_blank(#[trigger] tail[i]) by {
        assert(tail[i] == r[i + 1]);
    }
    lemma_skip_blanks_prefix(tail, Seq::<char>::empty());
    assert(tail + Seq::<char>::empty() =~= tail);
    assert(skip_blanks(Seq::<char>::empty()) == Seq::<char>::empty());
    assert(atomic_spec(p) == Some((Seq::<char>::empty(), t)));
    assert(term_tail(Seq::<char>::empty(), t) == (Seq::<char>::empty(), t));
    assert(term_spec(p) == Some((Seq::<char>::empty(), t)));
    assert(expr_tail(Seq::<char>::empty(), t) == (Seq::<char>::empty(), t));
}

/// A text made of spaces and tabs alone, the empty text among them, holds no expression.
pub proof fn lemma_blank_text_fails(b: Seq<char>)
    requires
        forall|i: int| 0 <= i < b.len() ==> is_blank(#[trigger] b[i]),
    ensures
        expr_spec(b) is None,
{
    lemma_skip_blanks_prefix(b, Seq::<char>::empty());
    assert(b + Seq::<char>::empty() =~= b);
    assert(skip_blanks(Seq::<char>::empty()) == Seq::<char>::empty());
    assert(atomic_spec(b) is None);
}

/// Builds the node of operator `op` from `expr1` and `expr2`.
pub fn parse_op(op: char, expr2: Expr, expr1: Expr) -> (r: Expr)
    requires
        is_add_op(op) || is_mul_op(op),
    ensures
        r == combine(op, expr1, expr2),
{
    if op == '+' {
        Expr::EAdd(Box::new(expr1), Box::new(expr2))
    } else if op == '-' {
        Expr::ESub(Box::new(expr1), Box::new(expr2))
    } else if op == '*' {
        Expr::EMul(Box::new(expr1), Box::new(expr2))
    } else {
        Expr::EDiv(Box::new(expr1), Box::new(expr2))
    }
}

fn parse_number(input: &str) -> (r: Option<(&str, Expr)>)
    ensures
        matches_spec(input@, r, number_spec(input@)),
{
    let t = skip_space(input);
    proof {
        lemma_skip_blanks_len(input@);
    }
    match scan_float(t) {
        Some((rest, bits)) => {
            let rest2 = skip_space(rest);
            proof {
                lemma_skip_blanks_len(rest@);
            }
            Some((rest2, Expr::EVal(bits)))
        },
        None => None,
    }
}

fn parse_atomic(input: &str) -> (r: Option<(&str, Expr)>)
    ensures
        matches_spec(input@, r, atomic_spec(input@)),
    decreases input@.len(), 1int,
{
    let t = skip_space(input);
    proof {
        lemma_skip_blanks_len(input@);
    }
    if let Some(inner) = eat_char(t, '(') {
        if let Some((r, e)) = parse_expr_opt(inner) {
            if let Some(after) = eat_char(r, ')') {
                let rest = skip_space(after);
                proof {
                    lemma_skip_blanks_len(after@);
                }
                return Some((rest, e));
            }
        }
    }
    parse_number(input)
}

fn parse_term(input: &str) -> (r: Option<(&str, Expr)>)
    ensures
        matches_spec(input@, r, term_spec(input@)),
    decreases input@.len(), 3int,
{
    let (mut rest, mut acc) = match parse_atomic(input) {
        Some(p) => p,
        None => return None,
    };
    let ghost goal = term_tail(rest@, acc);
    loop
        invariant
            term_tail(rest@, acc) == goal,
            term_spec(input@) == Some(goal),
            rest@.len() <= input@.len(),
        decreases rest@.len(),
    {
        let c = match eat_char(rest, '*') {
            Some(after) => Some(('*', after)),
            None => match eat_char(rest, '/') {
                Some(after) => Some(('/', after)),
                None => None,
            },
        };
        match c {
            Some((op, after)) => match parse_atomic(after) {
                Some((r, e)) => {
                    proof {
                        assert(after@ == rest@.drop_first());
                        assert(op == rest@[0]);
                    }
                    acc = parse_op(op, e, acc);
                    rest = r;
                },
                None => {
                    proof {
                        assert(after@ == rest@.drop_first());
                    }
                    return Some((rest, acc));
                },
            },
            None => return Some((rest, acc)),
        }
    }
}

fn parse_expr_opt(input: &str) -> (r: Option<(&str, Expr)>)
    ensures
        matches_spec(input@, r, expr_spec(input@)),
    decreases input@.len(), 5int,
{
    let (mut rest, mut acc) = match parse_term(input) {
        Some(p) => p,
        None => return None,
    };
    let ghost goal = expr_tail(rest@, acc);
    loop
        invariant
            expr_tail(rest@, acc) == goal,
            expr_spec(input@) == Some(goal),
            rest@.len() <= input@.len(),
        decreases rest@.len(),
    {
        let c = match eat_char(rest, '+') {
            Some(after) => Some(('+', after)),
            None => match eat_char(rest, '-') {
                Some(after) => Some(('-', after)),
                None => None,
            },
        };
        match c {
            Some((op, after)) => match parse_term(after) {
                Some((r, e)) => {
                    proof {
                        assert(after@ == rest@.drop_first());
                        assert(op == rest@[0]);
                    }
                    acc = parse_op(op, e, acc);
                    rest = r;
                },
                None => {
                    proof {
                        assert(after@ == rest@.drop_first());
                    }
                    return Some((rest, acc));
                },
            },
            None => return Some((rest, acc)),
        }
    }
}

/// Parses the expression at the start of `input`; returns the unconsumed rest and the tree.
pub fn parse_expr(input: &str) -> (r: Result<(&str, Expr), ParseFailure>)
    ensures
        match r {
            Ok((rest, e)) => expr_spec(input@) == Some((rest@, e)),
            Err(_) => expr_spec(input@) is None,
        },
{
    match parse_expr_opt(input) {
        Some(p) => Ok(p),
        None => Err(ParseFailure),
    }
}

} // verus!
