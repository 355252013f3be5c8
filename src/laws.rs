//! Properties of whole parses, proved from the grammar's meaning.
use vstd::prelude::*;
use crate::ast::{Expr, Tree};
use crate::grammar::{
    alternatives_from,
    children_from,
    expression_at,
    fits_i64,
    integer_text_value,
    keyword_at,
    name_at,
    program_from,
    rule_at,
    standard_rules,
    ws_end,
};
use crate::parsing::{
    decoded,
    decoded_at,
    is_numeric,
    is_space_or_newline,
    skip_from,
    text_of,
    ParsedChar,
};

verus! {

/// The digits of integer text: all of it but a leading `-`.
pub open spec fn integer_digits(s: Seq<char>) -> Seq<char> {
    if s.len() > 0 && s[0] == '-' {
        s.drop_first()
    } else {
        s
    }
}

/// Text of the form `-?[0-9]+`.
pub open spec fn is_integer_text(s: Seq<char>) -> bool {
    &&& integer_digits(s).len() > 0
    &&& forall|i: int|
        0 <= i < integer_digits(s).len() ==> is_numeric(#[trigger] integer_digits(s)[i])
}

proof fn lemma_text_of_decoded(s: Seq<char>, a: int, b: int)
    requires
        0 <= a <= b <= s.len(),
    ensures
        text_of(decoded(s).subrange(a, b)) == s.subrange(a, b),
{
    assert(text_of(decoded(s).subrange(a, b)) =~= s.subrange(a, b));
}

proof fn lemma_decoded_first(s: Seq<char>)
    requires
        s.len() > 0,
    ensures
        decoded(s)[0].line == 1,
        decoded(s)[0].column == 1,
{
    assert(s.take(0) =~= Seq::<char>::empty());
    assert(decoded(s)[0] == decoded_at(s, 0));
}

/// Where every character from `p` to the end is accepted, skipping reaches the end.
proof fn lemma_skip_to_end(chars: Seq<ParsedChar>, p: int, accept: spec_fn(char) -> bool)
    requires
        0 <= p <= chars.len(),
        forall|i: int| p <= i < chars.len() ==> accept(#[trigger] chars[i].char),
    ensures
        skip_from(chars, p, accept) == chars.len(),
    decreases chars.len() - p,
{
    if p < chars.len() {
        lemma_skip_to_end(chars, p + 1, accept);
    }
}

/// Where every character from `p` up to `e` is accepted and the one at `e` is not,
/// skipping stops at `e`.
proof fn lemma_skip_to(chars: Seq<ParsedChar>, p: int, e: int, accept: spec_fn(char) -> bool)
    requires
        0 <= p <= e < chars.len(),
        forall|i: int| p <= i < e ==> accept(#[trigger] chars[i].char),
        !accept(chars[e].char),
    ensures
        skip_from(chars, p, accept) == e,
    decreases e - p,
{
    if p < e {
        lemma_skip_to(chars, p + 1, e, accept);
    }
}

/// Where the character at `p` is no whitespace, no letter, and opens neither a group nor
/// a function, the function, assignment and group productions fail there, and so does
/// the scope production unless the character is `{`.
proof fn lemma_first_four_fail(chars: Seq<ParsedChar>, p: int)
    requires
        0 <= p < chars.len(),
        !is_space_or_newline(chars[p].char),
        !('a' <= chars[p].char <= 'z'),
        !('A' <= chars[p].char <= 'Z'),
        chars[p].char != '|',
        chars[p].char != '(',
    ensures
        ws_end(chars, p) == p,
        rule_at(standard_rules(), crate::grammar::Rule::Function, chars, p).0 is Err,
        rule_at(standard_rules(), crate::grammar::Rule::Assignment, chars, p).0 is Err,
        rule_at(standard_rules(), crate::grammar::Rule::Parentheses, chars, p).0 is Err,
        chars[p].char != '{' ==> rule_at(
            standard_rules(),
            crate::grammar::Rule::Scope,
            chars,
            p,
        ).0 is Err,
{
    reveal_strlit("let");
    assert(!keyword_at(chars, p)) by {
        if keyword_at(chars, p) {
            assert(text_of(chars.subrange(p, p + 3))[0] == chars[p].char);
        }
    }
    assert(ws_end(chars, p) == p);
    assert(name_at(chars, p).0 is Err);
}

/// A production that fails hands the attempt on to the next, with the error kept.
proof fn lemma_alternative_fails(
    g: Seq<crate::grammar::Rule>,
    chars: Seq<ParsedChar>,
    p: int,
    i: int,
    e: Seq<char>,
    at: int,
) -> (kept: (Seq<char>, int))
    requires
        0 <= i < g.len(),
        0 <= p <= chars.len(),
        rule_at(g, g[i], chars, ws_end(chars, p)).0 is Err,
    ensures
        alternatives_from(g, chars, p, i, e, at, true) == alternatives_from(
            g,
            chars,
            p,
            i + 1,
            kept.0,
            kept.1,
            true,
        ),
{
    let r = rule_at(g, g[i], chars, ws_end(chars, p));
    crate::grammar::furthest_error(r.0->Err_0, r.1, e, at)
}

/// A production that succeeds gives the outcome of the whole attempt.
proof fn lemma_alternative_succeeds(
    g: Seq<crate::grammar::Rule>,
    chars: Seq<ParsedChar>,
    p: int,
    i: int,
    e: Seq<char>,
    at: int,
)
    requires
        0 <= i < g.len(),
        0 <= p <= chars.len(),
        rule_at(g, g[i], chars, ws_end(chars, p)).0 is Ok,
    ensures
        alternatives_from(g, chars, p, i, e, at, true) == rule_at(
            g,
            g[i],
            chars,
            ws_end(chars, p),
        ),
{
}

/// The productions of the complete grammar, by index.
proof fn lemma_standard_rules()
    ensures
        standard_rules().len() == 7,
        standard_rules()[0] == crate::grammar::Rule::Function,
        standard_rules()[1] == crate::grammar::Rule::Assignment,
        standard_rules()[2] == crate::grammar::Rule::Scope,
        standard_rules()[3] == crate::grammar::Rule::Parentheses,
        standard_rules()[4] == crate::grammar::Rule::StringLiteral,
        standard_rules()[5] == crate::grammar::Rule::Integer,
        standard_rules()[6] == crate::grammar::Rule::VariableRef,
{
}

/// Integer text standing alone parses to one integer node, at line 1, column 1, with
/// its value, and nothing of the text is left.
pub proof fn lemma_integer_text_alone(s: Seq<char>)
    requires
        is_integer_text(s),
        fits_i64(integer_text_value(s)),
    ensures
        expression_at(standard_rules(), decoded(s), 0) == (
            Ok::<Tree, Seq<char>>(
                Tree { expr: Expr::Integer(integer_text_value(s)), line: 1, column: 1 },
            ),
            s.len() as int,
        ),
        program_from(standard_rules(), decoded(s), 0, Seq::empty()) == (
            seq![Tree { expr: Expr::Integer(integer_text_value(s)), line: 1, column: 1 }],
            None::<Seq<char>>,
        ),
{
    let chars = decoded(s);
    let g = standard_rules();
    let negative = s.len() > 0 && s[0] == '-';
    let q: int = if negative { 1 } else { 0 };
    let digits = integer_digits(s);
    assert(chars.len() == s.len());
    assert(digits.len() == s.len() - q);
    assert forall|i: int| q <= i < chars.len() implies is_numeric(#[trigger] chars[i].char) by {
        assert(chars[i] == decoded_at(s, i));
        assert(digits[i - q] == s[i]);
        assert(is_numeric(digits[i - q]));
    }
    assert(chars[0] == decoded_at(s, 0));
    lemma_skip_to_end(chars, q + 1, crate::parsing::numeric());
    lemma_text_of_decoded(s, 0, s.len() as int);
    assert(s.subrange(0, s.len() as int) =~= s);
    lemma_decoded_first(s);
    lemma_first_four_fail(chars, 0);
    lemma_standard_rules();
    let t = Tree { expr: Expr::Integer(integer_text_value(s)), line: 1, column: 1 };
    assert(rule_at(g, g[4], chars, 0).0 is Err);
    assert(rule_at(g, g[5], chars, 0) == (Ok::<Tree, Seq<char>>(t), s.len() as int));
    let k0 = (Seq::<char>::empty(), 0int);
    let k1 = lemma_alternative_fails(g, chars, 0, 0, k0.0, k0.1);
    let k2 = lemma_alternative_fails(g, chars, 0, 1, k1.0, k1.1);
    let k3 = lemma_alternative_fails(g, chars, 0, 2, k2.0, k2.1);
    let k4 = lemma_alternative_fails(g, chars, 0, 3, k3.0, k3.1);
    let k5 = lemma_alternative_fails(g, chars, 0, 4, k4.0, k4.1);
    lemma_alternative_succeeds(g, chars, 0, 5, k5.0, k5.1);
    assert(expression_at(g, chars, 0) == (Ok::<Tree, Seq<char>>(t), s.len() as int));
    lemma_skip_to_end(chars, s.len() as int, crate::parsing::space_or_newline());
    assert(program_from(g, chars, s.len() as int, seq![t]) == (seq![t], None::<Seq<char>>));
    assert(Seq::<Tree>::empty().push(t) =~= seq![t]);
}

pub proof fn lemma_single_contains(x: char, c: char)
    ensures
        seq![x].contains(c) == (c == x),
{
    if c == x {
        assert(seq![x][0] == c);
    }
}

/// Where the character at `p` can begin no expression, every production fails there.
proof fn lemma_no_expression_at(chars: Seq<ParsedChar>, p: int)
    requires
        0 <= p < chars.len(),
        !is_space_or_newline(chars[p].char),
        !('a' <= chars[p].char <= 'z'),
        !('A' <= chars[p].char <= 'Z'),
        !is_numeric(chars[p].char),
        chars[p].char != '|',
        chars[p].char != '(',
        chars[p].char != '{',
        chars[p].char != '"',
        chars[p].char != '-',
    ensures
        expression_at(standard_rules(), chars, p).0 is Err,
        expression_at(standard_rules(), chars, p).1 == p,
{
    let g = standard_rules();
    lemma_first_four_fail(chars, p);
    lemma_standard_rules();
    assert(rule_at(g, g[4], chars, p).0 is Err);
    assert(rule_at(g, g[5], chars, p).0 is Err);
    assert(name_at(chars, p).0 is Err);
    assert(rule_at(g, g[6], chars, p).0 is Err);
    let k0 = (Seq::<char>::empty(), 0int);
    let k1 = lemma_alternative_fails(g, chars, p, 0, k0.0, k0.1);
    let k2 = lemma_alternative_fails(g, chars, p, 1, k1.0, k1.1);
    let k3 = lemma_alternative_fails(g, chars, p, 2, k2.0, k2.1);
    let k4 = lemma_alternative_fails(g, chars, p, 3, k3.0, k3.1);
    let k5 = lemma_alternative_fails(g, chars, p, 4, k4.0, k4.1);
    let k6 = lemma_alternative_fails(g, chars, p, 5, k5.0, k5.1);
    lemma_alternative_fails(g, chars, p, 6, k6.0, k6.1);
}

/// The text of a string literal around `body`.
pub open spec fn quoted(body: Seq<char>) -> Seq<char> {
    seq!['"'] + body + seq!['"']
}

/// A string literal standing alone parses to one string node whose text is the body
/// exactly as written, at line 1, column 1, and nothing of the text is left.
pub proof fn lemma_string_literal_alone(body: Seq<char>)
    requires
        !body.contains('"'),
    ensures
        expression_at(standard_rules(), decoded(quoted(body)), 0) == (
            Ok::<Tree, Seq<char>>(Tree { expr: Expr::Str(body), line: 1, column: 1 }),
            body.len() + 2int,
        ),
        program_from(standard_rules(), decoded(quoted(body)), 0, Seq::empty()) == (
            seq![Tree { expr: Expr::Str(body), line: 1, column: 1 }],
            None::<Seq<char>>,
        ),
{
    let s = quoted(body);
    let chars = decoded(s);
    let g = standard_rules();
    let last = body.len() as int + 1;
    assert(chars.len() == s.len());
    assert(s.len() == body.len() + 2);
    assert(chars[0] == decoded_at(s, 0));
    assert(chars[last] == decoded_at(s, last));
    assert(s[0] == '"');
    assert(s[last] == '"');
    assert forall|i: int| 1 <= i < last implies crate::parsing::not_in_group(seq!['"'])(
        #[trigger] chars[i].char,
    ) by {
        assert(chars[i] == decoded_at(s, i));
        assert(s[i] == body[i - 1]);
        if body[i - 1] == '"' {
            assert(body.contains('"'));
        }
        lemma_single_contains('"', chars[i].char);
    }
    lemma_single_contains('"', '"');
    lemma_skip_to(chars, 1, last, crate::parsing::not_in_group(seq!['"']));
    lemma_text_of_decoded(s, 1, last);
    assert(s.subrange(1, last) =~= body);
    lemma_decoded_first(s);
    lemma_first_four_fail(chars, 0);
    lemma_standard_rules();
    let t = Tree { expr: Expr::Str(body), line: 1, column: 1 };
    assert(rule_at(g, g[4], chars, 0) == (Ok::<Tree, Seq<char>>(t), s.len() as int));
    let k0 = (Seq::<char>::empty(), 0int);
    let k1 = lemma_alternative_fails(g, chars, 0, 0, k0.0, k0.1);
    let k2 = lemma_alternative_fails(g, chars, 0, 1, k1.0, k1.1);
    let k3 = lemma_alternative_fails(g, chars, 0, 2, k2.0, k2.1);
    let k4 = lemma_alternative_fails(g, chars, 0, 3, k3.0, k3.1);
    lemma_alternative_succeeds(g, chars, 0, 4, k4.0, k4.1);
    lemma_skip_to_end(chars, s.len() as int, crate::parsing::space_or_newline());
    assert(program_from(g, chars, s.len() as int, seq![t]) == (seq![t], None::<Seq<char>>));
    assert(Seq::<Tree>::empty().push(t) =~= seq![t]);
}

/// `{`, then whitespace only, then `}`.
pub open spec fn blank_scope(interior: Seq<char>) -> Seq<char> {
    seq!['{'] + interior + seq!['}']
}

/// A scope that holds only whitespace parses to a scope with no children, at line 1,
/// column 1, and nothing of the text is left.
pub proof fn lemma_blank_scope(interior: Seq<char>)
    requires
        forall|i: int| 0 <= i < interior.len() ==> is_space_or_newline(#[trigger] interior[i]),
    ensures
        expression_at(standard_rules(), decoded(blank_scope(interior)), 0) == (
            Ok::<Tree, Seq<char>>(
                Tree { expr: Expr::Scope(Seq::empty()), line: 1, column: 1 },
            ),
            interior.len() + 2int,
        ),
        program_from(standard_rules(), decoded(blank_scope(interior)), 0, Seq::empty()) == (
            seq![Tree { expr: Expr::Scope(Seq::empty()), line: 1, column: 1 }],
            None::<Seq<char>>,
        ),
{
    let s = blank_scope(interior);
    let chars = decoded(s);
    let g = standard_rules();
    let last = interior.len() as int + 1;
    assert(chars.len() == s.len());
    assert(s.len() == interior.len() + 2);
    assert(chars[0] == decoded_at(s, 0));
    assert(chars[last] == decoded_at(s, last));
    assert(s[0] == '{');
    assert(s[last] == '}');
    assert forall|i: int| 1 <= i < last implies crate::parsing::space_or_newline()(
        #[trigger] chars[i].char,
    ) by {
        assert(chars[i] == decoded_at(s, i));
        assert(s[i] == interior[i - 1]);
    }
    lemma_skip_to(chars, 1, last, crate::parsing::space_or_newline());
    lemma_no_expression_at(chars, last);
    lemma_decoded_first(s);
    lemma_first_four_fail(chars, 0);
    lemma_standard_rules();
    let t = Tree { expr: Expr::Scope(Seq::empty()), line: 1, column: 1 };
    assert(children_from(g, chars, 1, '}', Seq::empty()) == (
        Ok::<Seq<Tree>, Seq<char>>(Seq::empty()),
        s.len() as int,
    ));
    assert(rule_at(g, g[2], chars, 0) == (Ok::<Tree, Seq<char>>(t), s.len() as int));
    let k0 = (Seq::<char>::empty(), 0int);
    let k1 = lemma_alternative_fails(g, chars, 0, 0, k0.0, k0.1);
    let k2 = lemma_alternative_fails(g, chars, 0, 1, k1.0, k1.1);
    lemma_alternative_succeeds(g, chars, 0, 2, k2.0, k2.1);
    lemma_skip_to_end(chars, s.len() as int, crate::parsing::space_or_newline());
    assert(program_from(g, chars, s.len() as int, seq![t]) == (seq![t], None::<Seq<char>>));
    assert(Seq::<Tree>::empty().push(t) =~= seq![t]);
}

/// A parse depends on the text alone: parsing equal texts, each on a fresh cursor,
/// gives equal trees and equal errors.
pub proof fn lemma_parse_deterministic(a: Seq<char>, b: Seq<char>)
    requires
        a == b,
    ensures
        program_from(standard_rules(), decoded(a), 0, Seq::empty()) == program_from(
            standard_rules(),
            decoded(b),
            0,
            Seq::empty(),
        ),
{
}

} // verus!
