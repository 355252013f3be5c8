//! What the grammar means: each production as a spec function from the decoded
//! characters and a start position to a result and the position the cursor ends at.
use vstd::prelude::*;
use crate::ast::{Expr, Tree};
use crate::parsing::{
    alphabetic,
    alphabetic_or_in,
    char_at,
    expected_text,
    is_alphabetic_or_in,
    is_char,
    lemma_skip_from_bounds,
    not_in_group,
    numeric,
    skip_from,
    space_or_newline,
    test_at,
    text_of,
    window_matches,
    ParsedChar,
};

verus! {

/// One production of the grammar.
#[derive(Clone, Copy, Debug, PartialEq, Eq, Structural)]
pub enum Rule {
    Function,
    Assignment,
    Scope,
    Parentheses,
    StringLiteral,
    Integer,
    VariableRef,
}

/// The order in which the complete grammar tries its productions: the ones that
/// begin with a keyword or a delimiter first, the permissive identifier last.
pub open spec fn standard_rules() -> Seq<Rule> {
    seq![
        Rule::Function,
        Rule::Assignment,
        Rule::Scope,
        Rule::Parentheses,
        Rule::StringLiteral,
        Rule::Integer,
        Rule::VariableRef,
    ]
}

/// What a production returns, and where the cursor ends.
pub type Outcome = (Result<Tree, Seq<char>>, int);

/// Characters that may follow the first letter of a name.
pub open spec fn name_symbols() -> Seq<char> {
    seq!['_', '-']
}

/// The first position at or after `p` that holds no whitespace.
pub open spec fn ws_end(chars: Seq<ParsedChar>, p: int) -> int {
    skip_from(chars, p, space_or_newline())
}

/// The end of the name whose first letter stands at `p`.
pub open spec fn name_end(chars: Seq<ParsedChar>, p: int) -> int {
    skip_from(chars, p + 1, alphabetic_or_in(name_symbols()))
}

/// The first position at or after `p` that holds no digit.
pub open spec fn digits_end(chars: Seq<ParsedChar>, p: int) -> int {
    skip_from(chars, p, numeric())
}

/// The value of a decimal digit character.
pub open spec fn digit_value(c: char) -> int {
    (c as u32) as int - 48
}

/// The value of a run of decimal digits.
pub open spec fn digits_value(s: Seq<char>) -> int
    decreases s.len(),
{
    if s.len() == 0 {
        0
    } else {
        digits_value(s.drop_last()) * 10 + digit_value(s.last())
    }
}

/// The value of integer text: an optional minus sign and decimal digits.
pub open spec fn integer_text_value(s: Seq<char>) -> int {
    if s.len() > 0 && s[0] == '-' {
        -digits_value(s.drop_first())
    } else {
        digits_value(s)
    }
}

/// `v` is a 64-bit signed integer.
pub open spec fn fits_i64(v: int) -> bool {
    i64::MIN <= v <= i64::MAX
}

/// A node of `expr` placed where `at` stands.
pub open spec fn located(expr: Expr, at: ParsedChar) -> Tree {
    Tree { expr, line: at.line, column: at.column }
}

/// An integer literal: `-?[0-9]+`, whose value must fit in 64 bits.
pub open spec fn integer_at(chars: Seq<ParsedChar>, p: int) -> Outcome {
    let negative = char_at(chars, p) == Some(ParsedChar { char: '-', ..chars[p] });
    let q = if negative { p + 1 } else { p };
    match test_at(chars, q, numeric(), "numerical character"@) {
        Err(e) => (Err(e), q),
        Ok(_) => {
            let e = digits_end(chars, q + 1);
            let value = integer_text_value(text_of(chars.subrange(p, e)));
            if fits_i64(value) {
                (Ok(located(Expr::Integer(value), chars[p])), e)
            } else {
                (Err(expected_text("integer within 64-bit range"@, Some(chars[p]))), e)
            }
        },
    }
}

/// A string literal: `"`, any characters but `"`, `"`.
pub open spec fn string_at(chars: Seq<ParsedChar>, p: int) -> Outcome {
    match test_at(chars, p, is_char('"'), seq!['"']) {
        Err(e) => (Err(e), p),
        Ok(first) => {
            let e = skip_from(chars, p + 1, not_in_group(seq!['"']));
            match test_at(chars, e, is_char('"'), seq!['"']) {
                Err(err) => (Err(err), e),
                Ok(_) => (Ok(located(Expr::Str(text_of(chars.subrange(p + 1, e))), first)), e + 1),
            }
        },
    }
}

/// A name: a letter, then letters, `_` and `-`.
pub open spec fn name_at(chars: Seq<ParsedChar>, p: int) -> (Result<Seq<char>, Seq<char>>, int) {
    match test_at(chars, p, alphabetic(), "alphabetical character"@) {
        Err(e) => (Err(e), p),
        Ok(_) => (Ok(text_of(chars.subrange(p, name_end(chars, p)))), name_end(chars, p)),
    }
}

pub open spec fn variable_at(chars: Seq<ParsedChar>, p: int) -> Outcome {
    match name_at(chars, p) {
        (Err(e), q) => (Err(e), q),
        (Ok(name), q) => (Ok(located(Expr::VariableRef(name), chars[p])), q),
    }
}

/// `let` stands at `p` as a whole word.
pub open spec fn keyword_at(chars: Seq<ParsedChar>, p: int) -> bool {
    &&& window_matches(chars, p, "let"@)
    &&& !(p + 3 < chars.len() && is_alphabetic_or_in(chars[p + 3].char, name_symbols()))
}

/// The nested single-parameter functions that a parameter list stands for.
pub open spec fn curry(params: Seq<Tree>, body: Tree) -> Tree
    decreases params.len(),
{
    if params.len() == 0 {
        body
    } else {
        Tree {
            expr: Expr::Function(Box::new(params[0]), Box::new(curry(params.drop_first(), body))),
            line: params[0].line,
            column: params[0].column,
        }
    }
}

/// `t` placed where `at` stands instead.
pub open spec fn relocated(t: Tree, at: ParsedChar) -> Tree {
    Tree { expr: t.expr, line: at.line, column: at.column }
}

/// The parameters of a function literal from `q` up to and past the closing `|`,
/// added to `acc`.
pub open spec fn params_from(chars: Seq<ParsedChar>, q: int, acc: Seq<Tree>) -> (
    Result<Seq<Tree>, Seq<char>>,
    int,
)
    decreases chars.len() - q,
{
    match variable_at(chars, q) {
        (Err(e), q1) => (Err(e), q1),
        (Ok(t), q1) => {
            let q2 = ws_end(chars, q1);
            match test_at(chars, q2, is_char('|'), seq!['|']) {
                Ok(_) => (Ok(acc.push(t)), q2 + 1),
                Err(_) => {
                    proof {
                        lemma_skip_from_bounds(chars, q + 1, alphabetic_or_in(name_symbols()));
                        lemma_skip_from_bounds(chars, q1, space_or_newline());
                    }
                    params_from(chars, q2, acc.push(t))
                },
            }
        },
    }
}

/// The measure that falls with every nested call of the grammar.
pub open spec fn rest(chars: Seq<ParsedChar>, p: int) -> int {
    chars.len() - p + 1
}

/// One expression of the grammar `g` at `p`: whitespace is skipped before each
/// production is tried; the first that succeeds wins. If none does, the cursor
/// stays at `p`, and the error is that of the attempt that got furthest before it
/// failed (of the later one, where two got equally far).
pub open spec fn expression_at(g: Seq<Rule>, chars: Seq<ParsedChar>, p: int) -> Outcome
    decreases rest(chars, p), 3int, 0int,
{
    alternatives_from(g, chars, p, 0, Seq::empty(), 0, true)
}

/// The error kept after an attempt that failed at `at` with `error`, where the one
/// kept so far failed at `best_at`.
pub open spec fn furthest_error(error: Seq<char>, at: int, best: Seq<char>, best_at: int) -> (
    Seq<char>,
    int,
) {
    if at >= best_at {
        (error, at)
    } else {
        (best, best_at)
    }
}

/// The productions of `g` from index `i` on, tried in turn at `p`; `best` is the
/// error kept so far and `best_at` where that attempt ended.
pub open spec fn alternatives_from(
    g: Seq<Rule>,
    chars: Seq<ParsedChar>,
    p: int,
    i: int,
    best: Seq<char>,
    best_at: int,
    skip_whitespace: bool,
) -> Outcome
    decreases rest(chars, p), 2int, g.len() - i,
{
    if i < 0 || i >= g.len() || p < 0 || p > chars.len() {
        (Err(best), p)
    } else {
        let q = if skip_whitespace { ws_end(chars, p) } else { p };
        proof {
            lemma_skip_from_bounds(chars, p, space_or_newline());
        }
        match rule_at(g, g[i], chars, q) {
            (Ok(t), e) => (Ok(t), e),
            (Err(err), e) => {
                let kept = furthest_error(err, e, best, best_at);
                alternatives_from(g, chars, p, i + 1, kept.0, kept.1, skip_whitespace)
            },
        }
    }
}

/// The production `rule` at `p`.
pub open spec fn rule_at(g: Seq<Rule>, rule: Rule, chars: Seq<ParsedChar>, p: int) -> Outcome
    decreases rest(chars, p), 1int, 0int,
{
    match rule {
        Rule::Function => function_at(g, chars, p),
        Rule::Assignment => assignment_at(g, chars, p),
        Rule::Scope => delimited_at(g, chars, p, '{', '}'),
        Rule::Parentheses => delimited_at(g, chars, p, '(', ')'),
        Rule::StringLiteral => string_at(chars, p),
        Rule::Integer => integer_at(chars, p),
        Rule::VariableRef => variable_at(chars, p),
    }
}

/// `let name = value` (an initialization) or `name = value` (an assignment).
pub open spec fn assignment_at(g: Seq<Rule>, chars: Seq<ParsedChar>, p: int) -> Outcome
    decreases rest(chars, p), 0int, 0int,
{
    let keyword = keyword_at(chars, p);
    let q = ws_end(chars, if keyword { p + 3 } else { p });
    match name_at(chars, q) {
        (Err(e), q1) => (Err(e), q1),
        (Ok(name), q1) => {
            let q2 = ws_end(chars, q1);
            match test_at(chars, q2, is_char('='), seq!['=']) {
                Err(e) => (Err(e), q2),
                Ok(_) => {
                    let q3 = ws_end(chars, q2 + 1);
                    proof {
                        if 0 <= p <= chars.len() {
                            lemma_skip_from_bounds(
                                chars,
                                if keyword { p + 3 } else { p },
                                space_or_newline(),
                            );
                            lemma_skip_from_bounds(chars, q + 1, alphabetic_or_in(name_symbols()));
                            lemma_skip_from_bounds(chars, q1, space_or_newline());
                            lemma_skip_from_bounds(chars, q2 + 1, space_or_newline());
                        }
                    }
                    if 0 <= p <= chars.len() {
                        match expression_at(g, chars, q3) {
                            (Err(e), q4) => (Err(e), q4),
                            (Ok(value), q4) => {
                                let at = if keyword { chars[p] } else { chars[q] };
                                if keyword {
                                    (
                                        Ok(located(Expr::Initialization(name, Box::new(value)), at)),
                                        q4,
                                    )
                                } else {
                                    (Ok(located(Expr::Assignment(name, Box::new(value)), at)), q4)
                                }
                            },
                        }
                    } else {
                        (Err(Seq::empty()), p)
                    }
                },
            }
        },
    }
}

/// `{ children }` or `( children )`, as `open` and `close` say.
pub open spec fn delimited_at(
    g: Seq<Rule>,
    chars: Seq<ParsedChar>,
    p: int,
    open: char,
    close: char,
) -> Outcome
    decreases rest(chars, p), 0int, 0int,
{
    match test_at(chars, p, is_char(open), seq![open]) {
        Err(e) => (Err(e), p),
        Ok(first) => match children_from(g, chars, p + 1, close, Seq::empty()) {
            (Err(e), q) => (Err(e), q),
            (Ok(children), q) => {
                let expr = if open == '{' {
                    Expr::Scope(children)
                } else {
                    Expr::Parentheses(children)
                };
                (Ok(located(expr, first)), q)
            },
        },
    }
}

/// The children of a delimited group from `q` on, added to `acc`: another child is
/// tried first; only where none can be parsed must `close` stand there. (A child
/// that succeeds always moves on, by `lemma_expression_bounds`; the test of that
/// here is what shows the recursion ends.)
pub open spec fn children_from(
    g: Seq<Rule>,
    chars: Seq<ParsedChar>,
    q: int,
    close: char,
    acc: Seq<Tree>,
) -> (Result<Seq<Tree>, Seq<char>>, int)
    decreases rest(chars, q), 4int, 0int,
{
    if q < 0 || q > chars.len() {
        (Ok(acc), q)
    } else {
        let q1 = ws_end(chars, q);
        proof {
            lemma_skip_from_bounds(chars, q, space_or_newline());
        }
        match expression_at(g, chars, q1) {
            (Ok(t), q2) => if q < q2 <= chars.len() {
                children_from(g, chars, q2, close, acc.push(t))
            } else {
                (Ok(acc.push(t)), q2)
            },
            (Err(e), _) => match test_at(chars, q1, is_char(close), seq![close]) {
                Ok(_) => (Ok(acc), q1 + 1),
                Err(_) => (Err(e), q1),
            },
        }
    }
}

/// `|a b c| body`: one or more names, then a body, as nested one-parameter functions.
pub open spec fn function_at(g: Seq<Rule>, chars: Seq<ParsedChar>, p: int) -> Outcome
    decreases rest(chars, p), 0int, 0int,
{
    match test_at(chars, p, is_char('|'), seq!['|']) {
        Err(e) => (Err(e), p),
        Ok(bar) => {
            proof {
                lemma_params_progress(chars, p + 1, Seq::empty());
            }
            match params_from(chars, p + 1, Seq::empty()) {
                (Err(e), q) => (Err(e), q),
                (Ok(params), q) => match expression_at(g, chars, q) {
                    (Err(e), e_end) => (Err(e), e_end),
                    (Ok(body), e_end) => (Ok(relocated(curry(params, body), bar)), e_end),
                },
            }
        },
    }
}

/// A parameter list ends after where it began, and one that succeeds names a parameter.
pub proof fn lemma_params_progress(chars: Seq<ParsedChar>, q: int, acc: Seq<Tree>)
    ensures
        0 <= q <= chars.len() ==> q <= params_from(chars, q, acc).1 <= chars.len(),
        0 <= q <= chars.len() && params_from(chars, q, acc).0 is Ok ==> q < params_from(
            chars,
            q,
            acc,
        ).1,
        params_from(chars, q, acc).0 is Ok ==> params_from(chars, q, acc).0->Ok_0.len() > 0,
    decreases chars.len() - q,
{
    match variable_at(chars, q) {
        (Err(e), q1) => {},
        (Ok(t), q1) => {
            if 0 <= q <= chars.len() {
                lemma_skip_from_bounds(chars, q + 1, alphabetic_or_in(name_symbols()));
                lemma_skip_from_bounds(chars, q1, space_or_newline());
            }
            match test_at(chars, ws_end(chars, q1), is_char('|'), seq!['|']) {
                Ok(_) => {},
                Err(_) => {
                    lemma_params_progress(chars, ws_end(chars, q1), acc.push(t));
                },
            }
        },
    }
}

/// A whole program from `p` on: expressions one after another until only
/// whitespace is left, or the first that fails. (As in `children_from`, the test that
/// an expression moved on always holds.)
pub open spec fn program_from(g: Seq<Rule>, chars: Seq<ParsedChar>, p: int, acc: Seq<Tree>) -> (
    Seq<Tree>,
    Option<Seq<char>>,
)
    decreases chars.len() - p,
{
    let q = ws_end(chars, p);
    if p < 0 || q >= chars.len() {
        (acc, None)
    } else {
        match expression_at(g, chars, q) {
            (Err(e), _) => (acc, Some(e)),
            (Ok(t), e) => if p < e <= chars.len() {
                program_from(g, chars, e, acc.push(t))
            } else {
                (acc.push(t), None)
            },
        }
    }
}

} // verus!

verus! {

/// A parenthesised group whose children are tried with the productions of `g` as
/// they stand (no whitespace skipped), the closing `)` before each child.
pub open spec fn listed_group_at(g: Seq<Rule>, chars: Seq<ParsedChar>, p: int) -> Outcome {
    match test_at(chars, p, is_char('('), seq!['(']) {
        Err(e) => (Err(e), p),
        Ok(first) => match listed_children_from(g, chars, p + 1, Seq::empty()) {
            (Err(e), q) => (Err(e), q),
            (Ok(children), q) => (Ok(located(Expr::Parentheses(children), first)), q),
        },
    }
}

/// The children of a listed group from `q` on, added to `acc`.
pub open spec fn listed_children_from(
    g: Seq<Rule>,
    chars: Seq<ParsedChar>,
    q: int,
    acc: Seq<Tree>,
) -> (Result<Seq<Tree>, Seq<char>>, int)
    decreases chars.len() - q,
{
    match test_at(chars, q, is_char(')'), seq![')']) {
        Ok(_) => (Ok(acc), q + 1),
        Err(_) => match alternatives_from(g, chars, q, 0, Seq::empty(), 0, false) {
            (Err(e), e_end) => (Err(e), e_end),
            (Ok(t), e) => if q < e <= chars.len() {
                listed_children_from(g, chars, e, acc.push(t))
            } else {
                (Ok(acc.push(t)), e)
            },
        },
    }
}

/// Every production ends at or after where it began and not past the end; one that
/// succeeds has taken at least one character.
pub proof fn lemma_rule_bounds(g: Seq<Rule>, rule: Rule, chars: Seq<ParsedChar>, p: int)
    requires
        0 <= p <= chars.len(),
    ensures
        p <= rule_at(g, rule, chars, p).1 <= chars.len(),
        rule_at(g, rule, chars, p).0 is Ok ==> p < rule_at(g, rule, chars, p).1,
    decreases rest(chars, p), 1int, 0int,
{
    match rule {
        Rule::Function => lemma_function_bounds(g, chars, p),
        Rule::Assignment => lemma_assignment_bounds(g, chars, p),
        Rule::Scope => lemma_delimited_bounds(g, chars, p, '{', '}'),
        Rule::Parentheses => lemma_delimited_bounds(g, chars, p, '(', ')'),
        Rule::StringLiteral => {
            if p < chars.len() {
                lemma_skip_from_bounds(chars, p + 1, not_in_group(seq!['"']));
            }
        },
        Rule::Integer => {
            if p + 1 < chars.len() {
                lemma_skip_from_bounds(chars, p + 2, numeric());
            }
            if p < chars.len() {
                lemma_skip_from_bounds(chars, p + 1, numeric());
            }
        },
        Rule::VariableRef => {
            if p < chars.len() {
                lemma_skip_from_bounds(chars, p + 1, alphabetic_or_in(name_symbols()));
            }
        },
    }
}

/// The bounds of an expression: see `lemma_rule_bounds`.
pub proof fn lemma_expression_bounds(g: Seq<Rule>, chars: Seq<ParsedChar>, p: int)
    requires
        0 <= p <= chars.len(),
    ensures
        p <= expression_at(g, chars, p).1 <= chars.len(),
        expression_at(g, chars, p).0 is Ok ==> p < expression_at(g, chars, p).1,
    decreases rest(chars, p), 3int, 0int,
{
    lemma_alternatives_bounds(g, chars, p, 0, Seq::empty(), 0, true);
}

/// The bounds of an attempt of the productions from index `i` on: see `lemma_rule_bounds`.
pub proof fn lemma_alternatives_bounds(
    g: Seq<Rule>,
    chars: Seq<ParsedChar>,
    p: int,
    i: int,
    best: Seq<char>,
    best_at: int,
    skip_whitespace: bool,
)
    requires
        0 <= p <= chars.len(),
    ensures
        p <= alternatives_from(g, chars, p, i, best, best_at, skip_whitespace).1 <= chars.len(),
        alternatives_from(g, chars, p, i, best, best_at, skip_whitespace).0 is Ok ==> p
            < alternatives_from(g, chars, p, i, best, best_at, skip_whitespace).1,
    decreases rest(chars, p), 2int, g.len() - i,
{
    if !(i < 0 || i >= g.len()) {
        let q = if skip_whitespace { ws_end(chars, p) } else { p };
        lemma_skip_from_bounds(chars, p, space_or_newline());
        lemma_rule_bounds(g, g[i], chars, q);
        match rule_at(g, g[i], chars, q) {
            (Ok(_), _) => {},
            (Err(err), e) => {
                let kept = furthest_error(err, e, best, best_at);
                lemma_alternatives_bounds(g, chars, p, i + 1, kept.0, kept.1, skip_whitespace);
            },
        }
    }
}

/// The bounds of an assignment: see `lemma_rule_bounds`.
proof fn lemma_assignment_bounds(g: Seq<Rule>, chars: Seq<ParsedChar>, p: int)
    requires
        0 <= p <= chars.len(),
    ensures
        p <= assignment_at(g, chars, p).1 <= chars.len(),
        assignment_at(g, chars, p).0 is Ok ==> p < assignment_at(g, chars, p).1,
    decreases rest(chars, p), 0int, 0int,
{
    reveal_strlit("let");
    let keyword = keyword_at(chars, p);
    let after_keyword = if keyword { p + 3 } else { p };
    lemma_skip_from_bounds(chars, after_keyword, space_or_newline());
    let q = ws_end(chars, after_keyword);
    if q < chars.len() {
        lemma_skip_from_bounds(chars, q + 1, alphabetic_or_in(name_symbols()));
    }
    match name_at(chars, q) {
        (Err(_), _) => {},
        (Ok(_), q1) => {
            lemma_skip_from_bounds(chars, q1, space_or_newline());
            let q2 = ws_end(chars, q1);
            if q2 < chars.len() {
                lemma_skip_from_bounds(chars, q2 + 1, space_or_newline());
                lemma_expression_bounds(g, chars, ws_end(chars, q2 + 1));
            }
        },
    }
}

/// The bounds of a delimited group: see `lemma_rule_bounds`.
proof fn lemma_delimited_bounds(
    g: Seq<Rule>,
    chars: Seq<ParsedChar>,
    p: int,
    open: char,
    close: char,
)
    requires
        0 <= p <= chars.len(),
    ensures
        p <= delimited_at(g, chars, p, open, close).1 <= chars.len(),
        delimited_at(g, chars, p, open, close).0 is Ok ==> p < delimited_at(
            g,
            chars,
            p,
            open,
            close,
        ).1,
    decreases rest(chars, p), 0int, 0int,
{
    if p < chars.len() {
        lemma_children_bounds(g, chars, p + 1, close, Seq::empty());
    }
}

/// The children of a group end at or after where they began, and not past the end.
proof fn lemma_children_bounds(
    g: Seq<Rule>,
    chars: Seq<ParsedChar>,
    q: int,
    close: char,
    acc: Seq<Tree>,
)
    requires
        0 <= q <= chars.len(),
    ensures
        q <= children_from(g, chars, q, close, acc).1 <= chars.len(),
    decreases rest(chars, q), 4int, 0int,
{
    lemma_skip_from_bounds(chars, q, space_or_newline());
    let q1 = ws_end(chars, q);
    lemma_expression_bounds(g, chars, q1);
    match expression_at(g, chars, q1) {
        (Ok(t), q2) => {
            lemma_children_bounds(g, chars, q2, close, acc.push(t));
        },
        (Err(_), _) => {},
    }
}

/// The bounds of a function literal: see `lemma_rule_bounds`.
proof fn lemma_function_bounds(g: Seq<Rule>, chars: Seq<ParsedChar>, p: int)
    requires
        0 <= p <= chars.len(),
    ensures
        p <= function_at(g, chars, p).1 <= chars.len(),
        function_at(g, chars, p).0 is Ok ==> p < function_at(g, chars, p).1,
    decreases rest(chars, p), 0int, 0int,
{
    if p < chars.len() {
        lemma_params_progress(chars, p + 1, Seq::empty());
        let q = params_from(chars, p + 1, Seq::empty()).1;
        if params_from(chars, p + 1, Seq::empty()).0 is Ok {
            lemma_expression_bounds(g, chars, q);
        }
    }
}

} // verus!
