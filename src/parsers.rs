//! The productions as executable parsers over a cursor, each proved to end where
//! its counterpart in `grammar` says and to return what it says.
use vstd::prelude::*;
use crate::ast::{lemma_models_push, models, ASTExpression, ASTLocation, ASTNode, Expr, Tree};
use crate::grammar::{
    alternatives_from,
    assignment_at,
    children_from,
    curry,
    delimited_at,
    digit_value,
    digits_value,
    expression_at,
    function_at,
    integer_at,
    keyword_at,
    lemma_alternatives_bounds,
    lemma_expression_bounds,
    listed_children_from,
    listed_group_at,
    located,
    name_at,
    name_symbols,
    params_from,
    program_from,
    rest,
    rule_at,
    standard_rules,
    string_at,
    variable_at,
    Outcome,
    Rule,
};
use crate::parsing::{
    alphabetic_or_in,
    decoded,
    expected_error,
    is_alphabetic_char,
    is_char,
    is_numeric_char,
    lemma_skip_from_bounds,
    not_in_group,
    numeric,
    skip_from,
    space_or_newline,
    test_at,
    text_of,
    ParseInput,
    ParsedChar,
};

verus! {

/// A parse result with the node seen as its model and the error as its characters.
pub open spec fn node_result(r: Result<ASTNode, String>) -> Result<Tree, Seq<char>> {
    match r {
        Ok(n) => Ok(n.model()),
        Err(e) => Err(e@),
    }
}

/// A result whose text, on either side, is seen as its characters.
pub open spec fn text_result(r: Result<String, String>) -> Result<Seq<char>, Seq<char>> {
    match r {
        Ok(s) => Ok(s@),
        Err(e) => Err(e@),
    }
}

/// The models of a sequence of nodes.
pub open spec fn models_vec(s: Seq<ASTNode>) -> Seq<Tree> {
    s.map_values(|n: ASTNode| n.model())
}

/// The text of a run grows by the character that follows it.
proof fn lemma_text_of_step(chars: Seq<ParsedChar>, a: int, b: int)
    requires
        0 <= a <= b < chars.len(),
    ensures
        text_of(chars.subrange(a, b + 1)) == text_of(chars.subrange(a, b)).push(chars[b].char),
        text_of(chars.subrange(a, b + 1)).drop_last() == text_of(chars.subrange(a, b)),
        text_of(chars.subrange(a, b + 1)).last() == chars[b].char,
{
    assert(text_of(chars.subrange(a, b + 1)) =~= text_of(chars.subrange(a, b)).push(chars[b].char));
}

/// The text of a run without its first character.
proof fn lemma_text_of_drop_first(chars: Seq<ParsedChar>, a: int, b: int)
    requires
        0 <= a < b <= chars.len(),
    ensures
        text_of(chars.subrange(a, b)).drop_first() == text_of(chars.subrange(a + 1, b)),
        text_of(chars.subrange(a, b))[0] == chars[a].char,
{
    assert(text_of(chars.subrange(a, b)).drop_first() =~= text_of(chars.subrange(a + 1, b)));
}

/// The largest magnitude of a 64-bit integer: that of its minimum.
const MAGNITUDE_LIMIT: u128 = 9223372036854775808;

/// An integer literal: an optional `-`, then decimal digits; the value must fit in 64 bits.
pub fn parse_integer(input: &mut ParseInput) -> (r: Result<ASTNode, String>)
    requires
        old(input).wf(),
    ensures
        final(input).chars == old(input).chars,
        final(input).wf(),
        (node_result(r), final(input).position as int) == integer_at(
            old(input).chars@,
            old(input).position as int,
        ),
{
    let ghost chars = input.chars@;
    let p = input.position;
    let first = match input.get_next_char() {
        Some(c) => c,
        None => {
            return Err(expected_error("numerical character", None));
        },
    };
    let negative = first.char == '-';
    if negative {
        input.skip_next_char();
    }
    let q = input.position;
    let digit = input.pop_next_char_numerical();
    let d = match digit {
        Ok(c) => c,
        Err(e) => {
            return Err(e);
        },
    };
    proof {
        lemma_text_of_step(chars, q as int, q as int);
        assert(text_of(chars.subrange(q as int, q as int)) =~= Seq::<char>::empty());
        assert(digits_value(Seq::<char>::empty()) == 0);
        assert(digits_value(text_of(chars.subrange(q as int, q + 1))) == digit_value(d.char));
    }
    let mut magnitude: u128 = ((d.char as u32) - 48) as u128;
    let mut overflow = false;
    loop
        invariant
            input.chars == old(input).chars,
            input.chars@ == chars,
            input.wf(),
            q < input.position,
            skip_from(chars, input.position as int, numeric()) == skip_from(
                chars,
                q + 1,
                numeric(),
            ),
            !overflow ==> magnitude == digits_value(
                text_of(chars.subrange(q as int, input.position as int)),
            ),
            !overflow ==> magnitude <= MAGNITUDE_LIMIT,
            overflow ==> digits_value(text_of(chars.subrange(q as int, input.position as int)))
                > MAGNITUDE_LIMIT,
        ensures
            input.chars == old(input).chars,
            input.chars@ == chars,
            input.wf(),
            q < input.position,
            input.position == skip_from(chars, q + 1, numeric()),
            !overflow ==> magnitude == digits_value(
                text_of(chars.subrange(q as int, input.position as int)),
            ),
            !overflow ==> magnitude <= MAGNITUDE_LIMIT,
            overflow ==> digits_value(text_of(chars.subrange(q as int, input.position as int)))
                > MAGNITUDE_LIMIT,
        decreases input.chars@.len() - input.position,
    {
        let c = match input.get_next_char() {
            Some(c) => c,
            None => {
                break ;
            },
        };
        if !is_numeric_char(c.char) {
            break ;
        }
        let ghost at = input.position as int;
        proof {
            lemma_text_of_step(chars, q as int, at);
        }
        let value = ((c.char as u32) - 48) as u128;
        if !overflow {
            let next = magnitude * 10 + value;
            if next > MAGNITUDE_LIMIT {
                overflow = true;
            } else {
                magnitude = next;
            }
        } else {
            assert(digits_value(text_of(chars.subrange(q as int, at + 1))) > MAGNITUDE_LIMIT)
                by (nonlinear_arith)
                requires
                    digits_value(text_of(chars.subrange(q as int, at + 1))) == digits_value(
                        text_of(chars.subrange(q as int, at)),
                    ) * 10 + digit_value(c.char),
                    digits_value(text_of(chars.subrange(q as int, at))) > MAGNITUDE_LIMIT,
                    0 <= digit_value(c.char),
            ;
        }
        input.skip_next_char();
    }
    let end = input.position;
    proof {
        // The literal's text is the sign, if any, then the digits from `q` on.
        lemma_text_of_drop_first(chars, p as int, end as int);
    }
    if overflow || (!negative && magnitude == MAGNITUDE_LIMIT) {
        return Err(expected_error("integer within 64-bit range", Some(first)));
    }
    let value: i64 = if negative {
        if magnitude == MAGNITUDE_LIMIT {
            i64::MIN
        } else {
            -(magnitude as i64)
        }
    } else {
        magnitude as i64
    };
    Ok(ASTNode::new(ASTExpression::ASTInteger(value), first.line, first.column))
}

/// A string literal: `"`, then everything up to the next `"`, taken as it stands.
pub fn parse_string_literal(input: &mut ParseInput) -> (r: Result<ASTNode, String>)
    requires
        old(input).wf(),
    ensures
        final(input).chars == old(input).chars,
        final(input).wf(),
        (node_result(r), final(input).position as int) == string_at(
            old(input).chars@,
            old(input).position as int,
        ),
{
    let first = match input.pop_char('"') {
        Ok(c) => c,
        Err(e) => {
            return Err(e);
        },
    };
    let output = input.pop_until_char('"');
    proof {
        lemma_skip_from_bounds(input.chars@, old(input).position + 1, not_in_group(seq!['"']));
    }
    match input.skip_char('"') {
        Ok(()) => {},
        Err(e) => {
            return Err(e);
        },
    }
    Ok(ASTNode::new(ASTExpression::ASTString(output), first.line, first.column))
}

/// A name and its first character: a letter, then letters, `_` and `-`.
fn name_with_start(input: &mut ParseInput) -> (r: Result<(ParsedChar, String), String>)
    requires
        old(input).wf(),
    ensures
        final(input).chars == old(input).chars,
        final(input).wf(),
        final(input).position == name_at(old(input).chars@, old(input).position as int).1,
        match r {
            Ok((c, name)) => name_at(old(input).chars@, old(input).position as int).0 == Ok::<
                Seq<char>,
                Seq<char>,
            >(name@) && c == old(input).chars@[old(input).position as int],
            Err(e) => name_at(old(input).chars@, old(input).position as int).0 == Err::<
                Seq<char>,
                Seq<char>,
            >(e@),
        },
{
    let ghost chars = input.chars@;
    let p = input.position;
    let first = match input.pop_next_char_alphabetical() {
        Ok(c) => c,
        Err(e) => {
            return Err(e);
        },
    };
    let symbols = vec!['_', '-'];
    assert(symbols@ =~= name_symbols());
    let mut output = String::new();
    output.push(first.char);
    proof {
        lemma_text_of_step(chars, p as int, p as int);
        assert(text_of(chars.subrange(p as int, p as int)) =~= Seq::<char>::empty());
    }
    loop
        invariant
            input.chars == old(input).chars,
            input.chars@ == chars,
            input.wf(),
            p < input.position,
            symbols@ == name_symbols(),
            skip_from(chars, input.position as int, alphabetic_or_in(name_symbols())) == skip_from(
                chars,
                p + 1,
                alphabetic_or_in(name_symbols()),
            ),
            output@ == text_of(chars.subrange(p as int, input.position as int)),
        ensures
            input.chars == old(input).chars,
            input.wf(),
            input.position == skip_from(chars, p + 1, alphabetic_or_in(name_symbols())),
            output@ == text_of(chars.subrange(p as int, input.position as int)),
        decreases input.chars@.len() - input.position,
    {
        let ghost at = input.position as int;
        match input.pop_next_char_alphabetical_or_in_group(&symbols) {
            Ok(c) => {
                proof {
                    lemma_text_of_step(chars, p as int, at);
                }
                output.push(c.char);
            },
            Err(_) => {
                break ;
            },
        }
    }
    Ok((first, output))
}

/// A name: a letter, then letters, `_` and `-`.
pub fn parse_name(input: &mut ParseInput) -> (r: Result<String, String>)
    requires
        old(input).wf(),
    ensures
        final(input).chars == old(input).chars,
        final(input).wf(),
        (text_result(r), final(input).position as int) == name_at(
            old(input).chars@,
            old(input).position as int,
        ),
{
    match name_with_start(input) {
        Ok((_, name)) => Ok(name),
        Err(e) => Err(e),
    }
}

/// A reference to a variable by its name.
pub fn parse_variable_ref(input: &mut ParseInput) -> (r: Result<ASTNode, String>)
    requires
        old(input).wf(),
    ensures
        final(input).chars == old(input).chars,
        final(input).wf(),
        (node_result(r), final(input).position as int) == variable_at(
            old(input).chars@,
            old(input).position as int,
        ),
{
    match name_with_start(input) {
        Ok((first, name)) => Ok(
            ASTNode::new(ASTExpression::ASTVariableRef(name), first.line, first.column),
        ),
        Err(e) => Err(e),
    }
}

/// An ordered list of productions, tried in turn wherever an expression may stand.
/// Composite productions parse their sub-expressions with the whole list, so a
/// grammar refers to itself through the value that is handed to them.
pub struct Grammar {
    pub rules: Vec<Rule>,
}

impl Grammar {
    /// The complete grammar of the language. The leaf productions come first; the
    /// composite ones, which parse their parts with this same grammar, are put in
    /// front of them, so that the permissive name production is tried last.
    pub fn new() -> (r: Grammar)
        ensures
            r.rules@ == standard_rules(),
    {
        let mut rules: Vec<Rule> = Vec::new();
        rules.push(Rule::StringLiteral);
        rules.push(Rule::Integer);
        rules.push(Rule::VariableRef);
        rules.insert(0, Rule::Function);
        rules.insert(1, Rule::Assignment);
        rules.insert(2, Rule::Scope);
        rules.insert(3, Rule::Parentheses);
        assert(rules@ =~= standard_rules());
        Grammar { rules }
    }
}

/// The outcome of a production as its spec states it: the result and where the cursor ends.
pub open spec fn outcome(r: Result<ASTNode, String>, after: ParseInput) -> Outcome {
    (node_result(r), after.position as int)
}

/// Tries `rule` at the cursor.
fn parse_rule(input: &mut ParseInput, grammar: &Grammar, rule: Rule) -> (r: Result<ASTNode, String>)
    requires
        old(input).wf(),
    ensures
        final(input).chars == old(input).chars,
        final(input).wf(),
        outcome(r, *final(input)) == rule_at(
            grammar.rules@,
            rule,
            old(input).chars@,
            old(input).position as int,
        ),
    decreases rest(old(input).chars@, old(input).position as int), 1int, 0int,
{
    match rule {
        Rule::Function => parse_function_with_parser(input, grammar),
        Rule::Assignment => parse_assignment_with_parser(input, grammar),
        Rule::Scope => parse_scope_with_parser(input, grammar),
        Rule::Parentheses => parse_parentheses_with_parser(input, grammar),
        Rule::StringLiteral => parse_string_literal(input),
        Rule::Integer => parse_integer(input),
        Rule::VariableRef => parse_variable_ref(input),
    }
}

/// The productions of `parsers` tried in turn from one save point, each after
/// whitespace where `skip_whitespace` says so; the first success wins. If all fail,
/// the cursor goes back, and the error returned is that of the attempt that got
/// furthest (the later one of two that got equally far).
fn try_alternatives(input: &mut ParseInput, parsers: &Grammar, skip_whitespace: bool) -> (r:
    Result<ASTNode, String>)
    requires
        old(input).wf(),
    ensures
        final(input).chars == old(input).chars,
        final(input).wf(),
        r is Err ==> final(input).position == old(input).position,
        outcome(r, *final(input)) == alternatives_from(
            parsers.rules@,
            old(input).chars@,
            old(input).position as int,
            0,
            Seq::empty(),
            0,
            skip_whitespace,
        ),
    decreases rest(old(input).chars@, old(input).position as int), 2int, 0int,
{
    let ghost g = parsers.rules@;
    let ghost chars = input.chars@;
    let ghost p = input.position as int;
    let save_point = input.create_save_point();
    let mut last_err = String::new();
    let mut last_err_at: usize = 0;
    let mut i: usize = 0;
    while i < parsers.rules.len()
        invariant
            input.chars == old(input).chars,
            input.chars@ == chars,
            input.position == p,
            p == old(input).position,
            save_point.0 == p,
            input.wf(),
            g == parsers.rules@,
            i <= g.len(),
            alternatives_from(g, chars, p, 0, Seq::empty(), 0, skip_whitespace)
                == alternatives_from(
                g,
                chars,
                p,
                i as int,
                last_err@,
                last_err_at as int,
                skip_whitespace,
            ),
        decreases g.len() - i,
    {
        if skip_whitespace {
            input.skip_spaces_and_newlines();
        }
        proof {
            lemma_skip_from_bounds(chars, p, space_or_newline());
        }
        match parse_rule(input, parsers, parsers.rules[i]) {
            Ok(x) => {
                return Ok(x);
            },
            Err(err) => {
                if input.position >= last_err_at {
                    last_err = err;
                    last_err_at = input.position;
                }
                input.load_save_point(save_point);
            },
        }
        i = i + 1;
    }
    Err(last_err)
}

/// Each production of `parsers` tried at the cursor as it stands.
pub fn try_parsers(input: &mut ParseInput, parsers: &Grammar) -> (r: Result<ASTNode, String>)
    requires
        old(input).wf(),
    ensures
        final(input).chars == old(input).chars,
        final(input).wf(),
        r is Err ==> final(input).position == old(input).position,
        outcome(r, *final(input)) == alternatives_from(
            parsers.rules@,
            old(input).chars@,
            old(input).position as int,
            0,
            Seq::empty(),
            0,
            false,
        ),
{
    try_alternatives(input, parsers, false)
}

/// One expression of the grammar `parsers`: the entry point every composite
/// production uses for its sub-expressions.
pub fn try_parsers_with_list(input: &mut ParseInput, parsers: &Grammar) -> (r: Result<
    ASTNode,
    String,
>)
    requires
        old(input).wf(),
    ensures
        final(input).chars == old(input).chars,
        final(input).wf(),
        r is Err ==> final(input).position == old(input).position,
        outcome(r, *final(input)) == expression_at(
            parsers.rules@,
            old(input).chars@,
            old(input).position as int,
        ),
    decreases rest(old(input).chars@, old(input).position as int), 3int, 0int,
{
    try_alternatives(input, parsers, true)
}

/// `open`, then expressions of the grammar, then `close`.
#[verifier::loop_isolation(false)]
fn parse_delimited(input: &mut ParseInput, parser: &Grammar, open: char, close: char) -> (r:
    Result<ASTNode, String>)
    requires
        old(input).wf(),
    ensures
        final(input).chars == old(input).chars,
        final(input).wf(),
        outcome(r, *final(input)) == delimited_at(
            parser.rules@,
            old(input).chars@,
            old(input).position as int,
            open,
            close,
        ),
    decreases rest(old(input).chars@, old(input).position as int), 0int, 0int,
{
    let ghost g = parser.rules@;
    let ghost chars = input.chars@;
    let ghost p = input.position as int;
    let first = match input.pop_char(open) {
        Ok(c) => c,
        Err(e) => {
            return Err(e);
        },
    };
    let mut output: Vec<Box<ASTNode>> = Vec::new();
    assert(models(output@) =~= Seq::<Tree>::empty());
    assert(test_at(chars, p, is_char(open), seq![open]) == Ok::<ParsedChar, Seq<char>>(first));
    loop
        invariant
            input.chars == old(input).chars,
            input.chars@ == chars,
            input.wf(),
            p == old(input).position,
            p < input.position,
            g == parser.rules@,
            first == chars[p],
            children_from(g, chars, p + 1, close, Seq::empty()) == children_from(
                g,
                chars,
                input.position as int,
                close,
                models(output@),
            ),
        decreases input.chars@.len() - input.position,
    {
        let ghost cur = input.position as int;
        input.skip_spaces_and_newlines();
        let ghost child_start = input.position as int;
        proof {
            lemma_skip_from_bounds(chars, cur, space_or_newline());
            lemma_expression_bounds(g, chars, child_start);
        }
        match try_parsers_with_list(input, parser) {
            Ok(x) => {
                proof {
                    lemma_models_push(output@, Box::new(x));
                }
                output.push(Box::new(x));
            },
            Err(e) => {
                match input.skip_char(close) {
                    Ok(()) => {
                        return Ok(delimited_node(open, output, first));
                    },
                    Err(_) => {
                        return Err(e);
                    },
                }
            },
        }
    }
}

fn delimited_node(open: char, children: Vec<Box<ASTNode>>, first: ParsedChar) -> (r: ASTNode)
    ensures
        r.model() == located(
            if open == '{' {
                Expr::Scope(models(children@))
            } else {
                Expr::Parentheses(models(children@))
            },
            first,
        ),
{
    if open == '{' {
        ASTNode::new(ASTExpression::ASTScope(children), first.line, first.column)
    } else {
        ASTNode::new(ASTExpression::ASTParentheses(children), first.line, first.column)
    }
}

/// A braced scope: `{`, zero or more expressions, `}`.
pub fn parse_scope_with_parser(input: &mut ParseInput, interior_parser: &Grammar) -> (r: Result<
    ASTNode,
    String,
>)
    requires
        old(input).wf(),
    ensures
        final(input).chars == old(input).chars,
        final(input).wf(),
        outcome(r, *final(input)) == delimited_at(
            interior_parser.rules@,
            old(input).chars@,
            old(input).position as int,
            '{',
            '}',
        ),
    decreases rest(old(input).chars@, old(input).position as int), 0int, 1int,
{
    parse_delimited(input, interior_parser, '{', '}')
}

/// A parenthesised group: `(`, zero or more expressions, `)`.
pub fn parse_parentheses_with_parser(input: &mut ParseInput, interior_parser: &Grammar) -> (r:
    Result<ASTNode, String>)
    requires
        old(input).wf(),
    ensures
        final(input).chars == old(input).chars,
        final(input).wf(),
        outcome(r, *final(input)) == delimited_at(
            interior_parser.rules@,
            old(input).chars@,
            old(input).position as int,
            '(',
            ')',
        ),
    decreases rest(old(input).chars@, old(input).position as int), 0int, 1int,
{
    parse_delimited(input, interior_parser, '(', ')')
}

/// `let name = value` gives an initialization, `name = value` an assignment.
/// `let` counts as the keyword only where no letter, `_` or `-` follows it.
pub fn parse_assignment_with_parser(input: &mut ParseInput, interior_parser: &Grammar) -> (r:
    Result<ASTNode, String>)
    requires
        old(input).wf(),
    ensures
        final(input).chars == old(input).chars,
        final(input).wf(),
        outcome(r, *final(input)) == assignment_at(
            interior_parser.rules@,
            old(input).chars@,
            old(input).position as int,
        ),
    decreases rest(old(input).chars@, old(input).position as int), 0int, 1int,
{
    let ghost chars = input.chars@;
    let p = input.position;
    proof {
        reveal_strlit("let");
        assert("let"@.len() == 3);
    }
    let mut keyword = input.match_word("let");
    if keyword && 3 < input.chars.len() - p {
        let c = input.chars[p + 3].char;
        if is_alphabetic_char(c) || c == '_' || c == '-' {
            keyword = false;
        }
    }
    assert(keyword == keyword_at(chars, p as int));
    if keyword {
        input.skip_x_chars(3);
    }
    let ghost after_keyword = input.position as int;
    input.skip_spaces_and_newlines();
    let ghost q = input.position as int;
    let (start, variable_name) = match name_with_start(input) {
        Ok(x) => x,
        Err(e) => {
            return Err(e);
        },
    };
    let ghost q1 = input.position as int;
    input.skip_spaces_and_newlines();
    let ghost q2 = input.position as int;
    match input.skip_char('=') {
        Ok(()) => {},
        Err(e) => {
            return Err(e);
        },
    }
    input.skip_spaces_and_newlines();
    proof {
        lemma_skip_from_bounds(chars, after_keyword, space_or_newline());
        lemma_skip_from_bounds(chars, q + 1, alphabetic_or_in(name_symbols()));
        lemma_skip_from_bounds(chars, q1, space_or_newline());
        lemma_skip_from_bounds(chars, q2 + 1, space_or_newline());
    }
    let variable_value = match try_parsers_with_list(input, interior_parser) {
        Ok(v) => v,
        Err(e) => {
            return Err(e);
        },
    };
    if keyword {
        let at = input.chars[p];
        Ok(
            ASTNode::new(
                ASTExpression::ASTInitialization(variable_name, Box::new(variable_value)),
                at.line,
                at.column,
            ),
        )
    } else {
        Ok(
            ASTNode::new(
                ASTExpression::ASTAssignment(variable_name, Box::new(variable_value)),
                start.line,
                start.column,
            ),
        )
    }
}

/// A last parameter wraps the body in one more function.
proof fn lemma_curry_push(s: Seq<Tree>, x: Tree, body: Tree)
    ensures
        curry(s.push(x), body) == curry(
            s,
            Tree {
                expr: Expr::Function(Box::new(x), Box::new(body)),
                line: x.line,
                column: x.column,
            },
        ),
    decreases s.len(),
{
    if s.len() > 0 {
        assert(s.push(x).drop_first() =~= s.drop_first().push(x));
        assert(s.push(x)[0] == s[0]);
        lemma_curry_push(s.drop_first(), x, body);
    } else {
        assert(s.push(x).drop_first() =~= Seq::<Tree>::empty());
        assert(curry(Seq::<Tree>::empty(), body) == body);
        assert(s.push(x)[0] == x);
    }
}

/// `|a b c| body`: the parameters, one or more names, then the body; the result is
/// the chain of one-parameter functions `a`, `b`, `c` around the body.
pub fn parse_function_with_parser(input: &mut ParseInput, interior_parser: &Grammar) -> (r:
    Result<ASTNode, String>)
    requires
        old(input).wf(),
    ensures
        final(input).chars == old(input).chars,
        final(input).wf(),
        outcome(r, *final(input)) == function_at(
            interior_parser.rules@,
            old(input).chars@,
            old(input).position as int,
        ),
    decreases rest(old(input).chars@, old(input).position as int), 0int, 1int,
{
    let ghost chars = input.chars@;
    let ghost g = interior_parser.rules@;
    let ghost p = input.position as int;
    let bar = match input.pop_char('|') {
        Ok(c) => c,
        Err(e) => {
            return Err(e);
        },
    };
    let mut params: Vec<ASTNode> = Vec::new();
    assert(models_vec(params@) =~= Seq::<Tree>::empty());
    loop
        invariant_except_break
            params_from(chars, p + 1, Seq::empty()) == params_from(
                chars,
                input.position as int,
                models_vec(params@),
            ),
        invariant
            input.chars == old(input).chars,
            input.chars@ == chars,
            input.wf(),
            p == old(input).position,
            p < input.position,
            bar == chars[p],
            test_at(chars, p, is_char('|'), seq!['|']) == Ok::<ParsedChar, Seq<char>>(bar),
            g == interior_parser.rules@,
        ensures
            input.chars == old(input).chars,
            input.wf(),
            p < input.position,
            params_from(chars, p + 1, Seq::empty()) == (
                Ok::<Seq<Tree>, Seq<char>>(models_vec(params@)),
                input.position as int,
            ),
        decreases input.chars@.len() - input.position,
    {
        let ghost cur = input.position as int;
        let parameter = match parse_variable_ref(input) {
            Ok(v) => v,
            Err(e) => {
                return Err(e);
            },
        };
        let ghost q1 = input.position as int;
        proof {
            lemma_skip_from_bounds(chars, cur + 1, alphabetic_or_in(name_symbols()));
            lemma_skip_from_bounds(chars, q1, space_or_newline());
            assert(models_vec(params@.push(parameter)) =~= models_vec(params@).push(
                parameter.model(),
            ));
        }
        params.push(parameter);
        input.skip_spaces_and_newlines();
        if input.skip_char('|').is_ok() {
            break ;
        }
    }
    let body = match try_parsers_with_list(input, interior_parser) {
        Ok(b) => b,
        Err(e) => {
            return Err(e);
        },
    };
    let ghost all = models_vec(params@);
    let ghost body_model = body.model();
    let mut function = body;
    while params.len() > 0
        invariant
            curry(all, body_model) == curry(models_vec(params@), function.model()),
        decreases params@.len(),
    {
        let ghost before = params@;
        let parameter = params.pop().unwrap();
        proof {
            assert(before =~= params@.push(parameter));
            assert(models_vec(before) =~= models_vec(params@).push(parameter.model()));
            lemma_curry_push(models_vec(params@), parameter.model(), function.model());
        }
        let line = parameter.location.line;
        let column = parameter.location.column;
        function = ASTNode::new(
            ASTExpression::ASTFunction(Box::new(parameter), Box::new(function)),
            line,
            column,
        );
    }
    assert(models_vec(params@) =~= Seq::<Tree>::empty());
    function.location = ASTLocation { line: bar.line, column: bar.column };
    Ok(function)
}

/// `(`, then children parsed with the productions of `parsers` as the cursor stands
/// (no whitespace skipped), until `)`.
pub fn parse_parentheses_with_parsers(input: &mut ParseInput, parsers: &Grammar) -> (r: Result<
    ASTNode,
    String,
>)
    requires
        old(input).wf(),
    ensures
        final(input).chars == old(input).chars,
        final(input).wf(),
        outcome(r, *final(input)) == listed_group_at(
            parsers.rules@,
            old(input).chars@,
            old(input).position as int,
        ),
{
    let ghost g = parsers.rules@;
    let ghost chars = input.chars@;
    let ghost p = input.position as int;
    let first = match input.pop_char('(') {
        Ok(c) => c,
        Err(e) => {
            return Err(e);
        },
    };
    let mut output: Vec<Box<ASTNode>> = Vec::new();
    assert(models(output@) =~= Seq::<Tree>::empty());
    loop
        invariant
            input.chars == old(input).chars,
            input.chars@ == chars,
            input.wf(),
            p == old(input).position,
            p < input.position,
            g == parsers.rules@,
            test_at(chars, p, is_char('('), seq!['(']) == Ok::<ParsedChar, Seq<char>>(first),
            listed_children_from(g, chars, p + 1, Seq::empty()) == listed_children_from(
                g,
                chars,
                input.position as int,
                models(output@),
            ),
        decreases input.chars@.len() - input.position,
    {
        if input.skip_char(')').is_ok() {
            return Ok(ASTNode::new(ASTExpression::ASTParentheses(output), first.line, first.column));
        }
        proof {
            lemma_alternatives_bounds(g, chars, input.position as int, 0, Seq::empty(), 0, false);
        }
        match try_parsers(input, parsers) {
            Ok(x) => {
                proof {
                    lemma_models_push(output@, Box::new(x));
                }
                output.push(Box::new(x));
            },
            Err(e) => {
                return Err(e);
            },
        }
    }
}

/// Parses a whole program: expressions one after another until only whitespace is
/// left. Returns the expressions parsed and, if one failed, its error; the
/// expressions before the failure are kept.
pub fn parse_ast_text(text: String) -> (r: (Vec<ASTNode>, Option<String>))
    requires
        text@.len() < u32::MAX,
    ensures
        (models_vec(r.0@), option_view(r.1)) == program_from(
            standard_rules(),
            decoded(text@),
            0,
            Seq::empty(),
        ),
{
    let grammar = Grammar::new();
    let mut input = ParseInput::new(text);
    let ghost g = grammar.rules@;
    let ghost chars = input.chars@;
    let mut ast_tree: Vec<ASTNode> = Vec::new();
    assert(models_vec(ast_tree@) =~= Seq::<Tree>::empty());
    loop
        invariant
            input.chars@ == chars,
            input.wf(),
            g == grammar.rules@,
            g == standard_rules(),
            chars == decoded(text@),
            program_from(g, chars, 0, Seq::empty()) == program_from(
                g,
                chars,
                input.position as int,
                models_vec(ast_tree@),
            ),
        decreases input.chars@.len() - input.position,
    {
        let ghost start = input.position as int;
        input.skip_spaces_and_newlines();
        if input.finished() {
            return (ast_tree, None);
        }
        proof {
            lemma_skip_from_bounds(chars, start, space_or_newline());
            lemma_expression_bounds(g, chars, input.position as int);
        }
        match try_parsers_with_list(&mut input, &grammar) {
            Ok(expr) => {
                proof {
                    assert(models_vec(ast_tree@.push(expr)) =~= models_vec(ast_tree@).push(
                        expr.model(),
                    ));
                }
                ast_tree.push(expr);
            },
            Err(err) => {
                return (ast_tree, Some(err));
            },
        }
    }
}

/// An optional message seen as its characters.
pub open spec fn option_view(o: Option<String>) -> Option<Seq<char>> {
    match o {
        Some(s) => Some(s@),
        None => None,
    }
}

} // verus!
