use ast_parser::ast::{ASTExpression, ASTNode};
use ast_parser::parsers::{parse_ast_text, try_parsers_with_list, Grammar};
use ast_parser::parsing::ParseInput;

/// The structure of a node without its location.
fn shape(node: &ASTNode) -> String {
    match &node.expression {
        ASTExpression::ASTVariableRef(name) => format!("Var({})", name),
        ASTExpression::ASTInteger(v) => format!("Int({})", v),
        ASTExpression::ASTString(s) => format!("Str({:?})", s),
        ASTExpression::ASTAssignment(name, value) => format!("Assign({}, {})", name, shape(value)),
        ASTExpression::ASTInitialization(name, value) => {
            format!("Init({}, {})", name, shape(value))
        }
        ASTExpression::ASTScope(children) => format!("Scope[{}]", shapes(children)),
        ASTExpression::ASTParentheses(children) => format!("Paren[{}]", shapes(children)),
        ASTExpression::ASTFunction(param, body) => format!("Fn({}, {})", shape(param), shape(body)),
        ASTExpression::ASTUnit => "Unit".to_string(),
    }
}

fn shapes(children: &Vec<Box<ASTNode>>) -> String {
    children.iter().map(|c| shape(c)).collect::<Vec<_>>().join(", ")
}

/// One expression parsed from the start of `text`, and the position the cursor ends at.
fn parse_one(text: &str) -> (Result<ASTNode, String>, usize) {
    let grammar = Grammar::new();
    let mut input = ParseInput::new(text.to_string());
    let r = try_parsers_with_list(&mut input, &grammar);
    (r, input.position)
}

fn parse_shape(text: &str) -> String {
    let (r, end) = parse_one(text);
    let node = r.expect("parse failed");
    assert_eq!(end, text.chars().count(), "input not consumed: {}", text);
    shape(&node)
}

fn location(node: &ASTNode) -> (u32, u32) {
    (node.location.line, node.location.column)
}

#[test]
fn parse_integers() {
    assert_eq!(parse_shape("-99"), "Int(-99)");
    assert_eq!(parse_shape("250"), "Int(250)");
    assert_eq!(parse_shape("1000"), "Int(1000)");
}

#[test]
fn parse_strings() {
    assert_eq!(parse_shape("\"a string\""), "Str(\"a string\")");
    let (r, _) = parse_one("\"line1 \r\nline2\nline3\"");
    match r.unwrap().expression {
        ASTExpression::ASTString(s) => assert_eq!(s, "line1 \r\nline2\nline3"),
        _ => panic!("not a string"),
    }
    let (r, _) = parse_one("\"ðŸ˜‰\"");
    match r.unwrap().expression {
        ASTExpression::ASTString(s) => assert_eq!(s, "ðŸ˜‰"),
        _ => panic!("not a string"),
    }
}

#[test]
fn parse_assignment() {
    assert_eq!(parse_shape("let x = 0"), "Init(x, Int(0))");
    assert_eq!(parse_shape("let x = -999"), "Init(x, Int(-999))");
}

#[test]
fn parse_parentheses() {
    assert_eq!(parse_shape("(1 2 3)"), "Paren[Int(1), Int(2), Int(3)]");
    assert_eq!(
        parse_shape("(0 (1 (2 (3))))"),
        "Paren[Int(0), Paren[Int(1), Paren[Int(2), Paren[Int(3)]]]]"
    );
}

#[test]
fn parse_scopes() {
    assert_eq!(parse_shape("{1 2 3}"), "Scope[Int(1), Int(2), Int(3)]");
    assert_eq!(
        parse_shape("{0 {1 {2 {3}}}}"),
        "Scope[Int(0), Scope[Int(1), Scope[Int(2), Scope[Int(3)]]]]"
    );
    assert_eq!(parse_shape("{\n                \n                }"), "Scope[]");
}

#[test]
fn parse_functions() {
    assert_eq!(parse_shape("|x| x"), "Fn(Var(x), Var(x))");
    assert_eq!(
        parse_shape("|x y z| (x y z)"),
        "Fn(Var(x), Fn(Var(y), Fn(Var(z), Paren[Var(x), Var(y), Var(z)])))"
    );
    let (a, _) = parse_one("let adder = |add_amount x| (add_amount x)");
    let (b, _) = parse_one("let adder = |add_amount| |x| (add_amount x)");
    assert_eq!(shape(&a.unwrap()), shape(&b.unwrap()));
}

#[test]
fn integer_alone_consumes_all_and_starts_at_one_one() {
    for text in ["0", "7", "-1", "42", "-9223372036854775808", "9223372036854775807"] {
        let (r, end) = parse_one(text);
        let node = r.unwrap();
        assert_eq!(end, text.len());
        assert_eq!(location(&node), (1, 1));
        match node.expression {
            ASTExpression::ASTInteger(v) => assert_eq!(v.to_string(), text),
            _ => panic!("not an integer"),
        }
    }
}

#[test]
fn integer_out_of_range_is_an_error() {
    let (r, _) = parse_one("9223372036854775808");
    assert_eq!(
        r.unwrap_err(),
        "Expected: 'integer within 64-bit range' at line: 1, column: 1, but found '9'"
    );
    let (r, _) = parse_one("-9223372036854775809");
    assert!(r.is_err());
}

#[test]
fn string_is_taken_unchanged() {
    let text = "\"a\\nb é 𝄞 \\t\"";
    let (r, end) = parse_one(text);
    assert_eq!(end, text.chars().count());
    match r.unwrap().expression {
        ASTExpression::ASTString(s) => assert_eq!(s, "a\\nb é 𝄞 \\t"),
        _ => panic!("not a string"),
    }
}

#[test]
fn unterminated_string_reports_the_end() {
    let (r, _) = parse_one("\"abc");
    assert_eq!(r.unwrap_err(), "Expected: '\"', but found end of parse text");
    let mut input = ParseInput::new("\"abc".to_string());
    let r = ast_parser::parsers::parse_string_literal(&mut input);
    assert_eq!(r.unwrap_err(), "Expected: '\"', but found end of parse text");
    assert_eq!(input.position, 4);
}

#[test]
fn nested_parentheses_and_scopes_keep_locations() {
    let (r, _) = parse_one("(0 (1 (2 (3))))");
    let node = r.unwrap();
    assert_eq!(location(&node), (1, 1));
    match &node.expression {
        ASTExpression::ASTParentheses(children) => {
            assert_eq!(children.len(), 2);
            assert_eq!(location(&children[0]), (1, 2));
            assert_eq!(location(&children[1]), (1, 4));
        }
        _ => panic!("not a group"),
    }
}

#[test]
fn blank_scope_has_no_children() {
    for text in ["{}", "{ }", "{\n\r \n}"] {
        assert_eq!(parse_shape(text), "Scope[]");
    }
}

#[test]
fn currying_is_structural_sugar() {
    let (a, _) = parse_one("|x y z| (x y z)");
    let (b, _) = parse_one("|x| |y| |z| (x y z)");
    assert_eq!(shape(&a.unwrap()), shape(&b.unwrap()));
}

#[test]
fn function_needs_a_parameter() {
    let (r, _) = parse_one("|| x");
    assert!(r.is_err());
}

#[test]
fn assignment_and_initialization() {
    assert_eq!(parse_shape("x = 5"), "Assign(x, Int(5))");
    assert_eq!(parse_shape("let x = 5"), "Init(x, Int(5))");
    let (r, _) = parse_one("let x = 5");
    assert_eq!(location(&r.unwrap()), (1, 1));
}

#[test]
fn let_prefix_is_no_keyword() {
    // `let` is a keyword only as a whole word: a longer name that begins with it
    // stays a name.
    assert_eq!(parse_shape("let_value"), "Var(let_value)");
    assert_eq!(parse_shape("letter = 5"), "Assign(letter, Int(5))");
    assert_eq!(parse_shape("let letter = 5"), "Init(letter, Int(5))");
}

#[test]
fn unclosed_scope_reports_the_end() {
    let (nodes, err) = parse_ast_text("{1 2".to_string());
    assert!(nodes.is_empty());
    assert_eq!(
        err.unwrap(),
        "Expected: 'alphabetical character', but found end of parse text"
    );
    let (nodes, err) = parse_ast_text("{1 2 ]".to_string());
    assert!(nodes.is_empty());
    assert_eq!(
        err.unwrap(),
        "Expected: 'alphabetical character' at line: 1, column: 6, but found ']'"
    );
}

#[test]
fn parsing_twice_gives_equal_trees() {
    let text = "let f = |a b| { (a b) \"s\" -3 }\nx = f";
    let (first, e1) = parse_ast_text(text.to_string());
    let (second, e2) = parse_ast_text(text.to_string());
    assert_eq!(first, second);
    assert_eq!(e1, e2);
    assert_eq!(first.len(), 2);
    assert!(e1.is_none());
    assert_eq!(location(&first[1]), (2, 1));
}

#[test]
fn program_keeps_nodes_before_a_failure() {
    let (nodes, err) = parse_ast_text("1 2 = 3".to_string());
    assert_eq!(nodes.len(), 2);
    assert_eq!(
        err.unwrap(),
        "Expected: 'alphabetical character' at line: 1, column: 5, but found '='"
    );
    let (nodes, err) = parse_ast_text("  7 \n".to_string());
    assert_eq!(nodes.len(), 1);
    assert!(err.is_none());
}

#[test]
fn alternation_keeps_the_furthest_error() {
    let (r, end) = parse_one("  ;");
    assert_eq!(end, 0);
    assert_eq!(
        r.unwrap_err(),
        "Expected: 'alphabetical character' at line: 1, column: 3, but found ';'"
    );
}
