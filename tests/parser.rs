use pepega::ast::StatementNode;
use pepega::lexer::Lexer;
use pepega::parser::Parser;

fn parse(input: &str) -> (Vec<StatementNode>, Vec<String>) {
    let l = Lexer::new(input.into());
    let mut p = Parser::new(l);
    let root = p.parse_root();
    (root.statements, p.errors().clone())
}

fn let_name(s: &StatementNode) -> Option<&str> {
    match s {
        StatementNode::Let(let_statement) => Some(let_statement.name.as_str()),
        StatementNode::Return(_) => None,
    }
}

#[test]
fn test_parser1() {
    let input = "\
let x = 5;
let y = 10;
let foobar = 838383;";

    let l = Lexer::new(input.into());
    let mut p = Parser::new(l);

    let root = p.parse_root();
    assert!(p.errors().is_empty(), "encountered errors: {}", p.errors().join("\n"));

    assert_eq!(
        root.statements.len(),
        3,
        "Root statement does not contain 3 statement nodes {}",
        root.statements.len()
    );

    let tests = vec!["x", "y", "foobar"];

    for (i, test) in tests.iter().enumerate() {
        let statement = &root.statements[i];
        assert_eq!(let_name(statement), Some(*test), "name does not match");
    }
}

#[test]
fn test_parser2() {
    let input = "\
let x 5;
let = 10;
let 838383;";

    let l = Lexer::new(input.into());
    let mut p = Parser::new(l);

    let _root = p.parse_root();

    assert_eq!(p.errors().len(), 3);
}

#[test]
fn test_return_statement() {
    let input = "\
return 5;
return 10;
return 993322;";

    let l = Lexer::new(input.into());
    let mut p = Parser::new(l);

    let root = p.parse_root();

    assert!(p.errors().is_empty(), "encountered errors: {}", p.errors().join("\n"));

    assert_eq!(
        root.statements.len(),
        3,
        "Root does not contain 3 nodes, {} instead ",
        root.statements.len()
    );

    for node in root.statements {
        assert!(matches!(node, StatementNode::Return(_)), "Incorrect node!");
    }
}

#[test]
fn malformed_lets_give_one_diagnostic_each() {
    let (statements, errors) = parse("let x 5;\nlet = 10;\nlet 838383;");
    assert!(statements.is_empty());
    assert_eq!(
        errors,
        vec![
            "expected next token to be: Assign, got Int(\"5\") instead".to_string(),
            "expected next token to be: Identifier(\"\"), got Assign instead".to_string(),
            "expected next token to be: Identifier(\"\"), got Int(\"838383\") instead".to_string(),
        ]
    );
}

#[test]
fn good_statements_survive_bad_ones() {
    let (statements, errors) = parse("let a = 1;\nlet 2;\nreturn a;\nlet b = a + 1;");
    assert_eq!(statements.len(), 3);
    assert_eq!(let_name(&statements[0]), Some("a"));
    assert!(matches!(statements[1], StatementNode::Return(_)));
    assert_eq!(let_name(&statements[2]), Some("b"));
    assert_eq!(
        errors,
        vec!["expected next token to be: Identifier(\"\"), got Int(\"2\") instead".to_string()]
    );
}

#[test]
fn unknown_leading_token_is_dropped_without_diagnostic() {
    let (statements, errors) = parse("x = 5;\nif (x) { 1 };\nlet y = 2;");
    assert_eq!(statements.len(), 1);
    assert_eq!(let_name(&statements[0]), Some("y"));
    assert!(errors.is_empty());
}

#[test]
fn empty_program_has_no_statements() {
    let (statements, errors) = parse("");
    assert!(statements.is_empty());
    assert!(errors.is_empty());
    let (statements, errors) = parse("  \n\t ");
    assert!(statements.is_empty());
    assert!(errors.is_empty());
}

#[test]
fn statement_without_semicolon_ends_at_end_of_input() {
    let (statements, errors) = parse("let x = 5");
    assert_eq!(statements.len(), 1);
    assert_eq!(let_name(&statements[0]), Some("x"));
    assert!(errors.is_empty());
    let (statements, errors) = parse("return");
    assert_eq!(statements.len(), 1);
    assert!(matches!(statements[0], StatementNode::Return(_)));
    assert!(errors.is_empty());
}

#[test]
fn return_with_empty_value() {
    let (statements, errors) = parse("return;return;");
    assert_eq!(statements.len(), 2);
    assert!(errors.is_empty());
}
