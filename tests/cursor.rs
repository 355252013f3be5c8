use ast_parser::ast::{ASTExpression, ASTNode};
use ast_parser::parsers::{
    parse_assignment_with_parser, parse_function_with_parser, parse_integer, parse_name,
    parse_parentheses_with_parser, parse_parentheses_with_parsers, parse_scope_with_parser,
    parse_variable_ref, try_parsers, Grammar,
};
use ast_parser::grammar::Rule;
use ast_parser::parsing::{ParseInput, ParseSavePoint, ParsedChar};

fn cursor(text: &str) -> ParseInput {
    ParseInput::new(text.to_string())
}

#[test]
fn new_numbers_lines_and_columns() {
    let input = cursor("ab\ncd\n\ne");
    let found: Vec<(char, u32, u32)> = input.chars.iter().map(|c| (c.char, c.line, c.column)).collect();
    assert_eq!(
        found,
        vec![
            ('a', 1, 1),
            ('b', 1, 2),
            ('\n', 1, 3),
            ('c', 2, 1),
            ('d', 2, 2),
            ('\n', 2, 3),
            ('\n', 3, 1),
            ('e', 4, 1),
        ]
    );
    assert_eq!(input.position, 0);
    assert!(cursor("").finished());
}

#[test]
fn peek_pop_and_save_points() {
    let mut input = cursor("xy");
    let save = input.create_save_point();
    assert_eq!(save, ParseSavePoint(0));
    assert_eq!(input.get_next_char().map(|c| c.char), Some('x'));
    assert_eq!(input.pop_next_char().map(|c| c.char), Some('x'));
    assert_eq!(input.pop_next_char_result().map(|c| c.char), Ok('y'));
    assert_eq!(input.pop_next_char(), None);
    assert_eq!(
        input.pop_next_char_result().unwrap_err(),
        "Expected: 'character', but found end of parse text"
    );
    input.load_save_point(save);
    assert_eq!(input.position, 0);
    assert_eq!(input.get_next_char_result().map(|c| c.column), Ok(1));
}

#[test]
fn predicate_matchers() {
    let mut input = cursor("a1_-!");
    assert!(input.get_next_char_alphabetical().is_ok());
    assert!(input.get_next_char_numerical().is_err());
    assert!(input.pop_next_char_alphabetical().is_ok());
    assert_eq!(
        input.pop_next_char_alphabetical().unwrap_err(),
        "Expected: 'alphabetical character' at line: 1, column: 2, but found '1'"
    );
    assert_eq!(input.pop_next_char_numerical().map(|c| c.char), Ok('1'));
    let group = vec!['_', '-'];
    assert!(input.get_next_char_alphabetical_or_in_group(&group).is_ok());
    assert!(input.pop_next_char_alphabetical_or_in_group(&group).is_ok());
    assert!(input.pop_next_char_alphabetical_or_in_group(&group).is_ok());
    assert_eq!(
        input.pop_next_char_alphabetical_or_in_group(&group).unwrap_err(),
        "Expected: 'alphabetical character or one of _-' at line: 1, column: 5, but found '!'"
    );
    assert_eq!(input.position, 4);
}

#[test]
fn closure_predicates() {
    let mut input = cursor("q");
    let accept_q = |c: ParsedChar| if c.char == 'q' { Ok(c) } else { Err("not q".to_string()) };
    assert!(input.get_next_char_predicate(&accept_q).is_ok());
    assert!(input.pop_next_char_predicate(&accept_q).is_ok());
    assert_eq!(input.position, 1);
    assert_eq!(
        input.pop_next_char_predicate(&accept_q).unwrap_err(),
        "Expected: 'character', but found end of parse text"
    );
}

#[test]
fn skipping() {
    let mut input = cursor("abc");
    input.skip_x_chars(2);
    assert_eq!(input.position, 2);
    input.skip_x_chars(5);
    assert_eq!(input.position, 3);
    input.skip_next_char();
    assert_eq!(input.position, 3);

    let mut input = cursor("   \n\r x");
    input.skip_spaces();
    assert_eq!(input.position, 3);
    input.skip_spaces_and_newlines();
    assert_eq!(input.position, 6);

    let mut input = cursor("aaab");
    input.skip_any_of_char('a');
    assert_eq!(input.position, 3);
    let mut input = cursor("abcabd");
    input.skip_any_of_chars(vec!['a', 'b', 'c']);
    assert_eq!(input.position, 5);
}

#[test]
fn words_and_chars() {
    let mut input = cursor("let x");
    assert!(input.match_word("let"));
    assert!(!input.match_word("lex"));
    assert!(!input.match_word("let x y"));
    assert_eq!(
        input.skip_string("lex").unwrap_err(),
        "Expected: 'lex' at line: 1, column: 1, but found 'l'"
    );
    assert!(input.skip_string("let").is_ok());
    assert_eq!(input.position, 3);
    assert_eq!(
        input.skip_char('y').unwrap_err(),
        "Expected: 'y' at line: 1, column: 4, but found ' '"
    );
    assert!(input.skip_char(' ').is_ok());
    assert_eq!(input.pop_char('x').map(|c| c.column), Ok(5));
    assert_eq!(
        input.pop_char('x').unwrap_err(),
        "Expected: 'x', but found end of parse text"
    );
}

#[test]
fn text_windows() {
    let mut input = cursor("hello, world");
    input.position = 7;
    assert_eq!(input.get_remaining_text(), Ok("world".to_string()));
    let window: Vec<char> = input.get_next_x_chars(3).unwrap().iter().map(|c| c.char).collect();
    assert_eq!(window, vec!['w', 'o', 'r']);
    assert!(input.get_next_x_chars(6).is_none());
    input.position = 20;
    assert_eq!(input.get_remaining_text(), Err("Invalid input access".to_string()));

    let mut input = cursor("key: value; rest");
    assert_eq!(input.pop_until_char(':'), "key");
    assert_eq!(input.position, 3);
    input.skip_next_char();
    assert_eq!(input.pop_until_chars(vec![';', '!']), " value");
    assert_eq!(input.pop_until_char('#'), "; rest");
    assert!(input.finished());
}

#[test]
fn display_location_text() {
    let input = cursor("\n\n   x");
    assert_eq!(input.chars[5].display_location(), "line: 3, column: 4");
}

#[test]
fn leaf_rules() {
    let mut input = cursor("42x");
    let node = parse_integer(&mut input).unwrap();
    assert_eq!(node.expression, ASTExpression::ASTInteger(42));
    assert_eq!(input.position, 2);
    let mut input = cursor("-x");
    assert_eq!(
        parse_integer(&mut input).unwrap_err(),
        "Expected: 'numerical character' at line: 1, column: 2, but found 'x'"
    );
    let mut input = cursor("my_name-2");
    assert_eq!(parse_name(&mut input), Ok("my_name-".to_string()));
    let mut input = cursor("_x");
    assert!(parse_variable_ref(&mut input).is_err());
    assert_eq!(input.position, 0);
}

#[test]
fn composite_rules() {
    let grammar = Grammar::new();
    assert_eq!(grammar.rules.len(), 7);
    assert_eq!(grammar.rules[0], Rule::Function);
    assert_eq!(grammar.rules[6], Rule::VariableRef);

    let mut input = cursor("{ a }");
    assert!(parse_scope_with_parser(&mut input, &grammar).is_ok());
    let mut input = cursor("( a )");
    assert!(parse_parentheses_with_parser(&mut input, &grammar).is_ok());
    let mut input = cursor("let\n  y\n=\n7");
    let node = parse_assignment_with_parser(&mut input, &grammar).unwrap();
    match &node.expression {
        ASTExpression::ASTInitialization(name, value) => {
            assert_eq!(name, "y");
            assert_eq!(value.expression, ASTExpression::ASTInteger(7));
            assert_eq!((value.location.line, value.location.column), (4, 1));
        }
        _ => panic!("not an initialization"),
    }
    let mut input = cursor("|a b| a");
    let node: ASTNode = parse_function_with_parser(&mut input, &grammar).unwrap();
    assert_eq!((node.location.line, node.location.column), (1, 1));
    match &node.expression {
        ASTExpression::ASTFunction(param, inner) => {
            assert_eq!(param.expression, ASTExpression::ASTVariableRef("a".to_string()));
            assert_eq!((inner.location.line, inner.location.column), (1, 4));
        }
        _ => panic!("not a function"),
    }
}

#[test]
fn listed_parentheses_skip_no_whitespace() {
    let leaves = Grammar { rules: vec![Rule::Integer, Rule::VariableRef] };
    let mut input = cursor("(1x)");
    let node = parse_parentheses_with_parsers(&mut input, &leaves).unwrap();
    match &node.expression {
        ASTExpression::ASTParentheses(children) => assert_eq!(children.len(), 2),
        _ => panic!("not a group"),
    }
    let mut input = cursor("(1 x)");
    assert!(parse_parentheses_with_parsers(&mut input, &leaves).is_err());
    let mut input = cursor(" 1");
    assert!(try_parsers(&mut input, &leaves).is_err());
    assert_eq!(input.position, 0);
    let empty = Grammar { rules: vec![] };
    let mut input = cursor("1");
    assert_eq!(try_parsers(&mut input, &empty), Err(String::new()));
}

