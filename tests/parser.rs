use gsc_syntax::error::SyntaxError;
use gsc_syntax::lexer::{Lexer, Token, TokenType};
use gsc_syntax::parser::{Node, Parser, Rule, RuleType};

fn grammar() -> Parser {
    Parser::new(vec![
        Rule::new(
            RuleType::VarAssignString,
            vec![TokenType::Identifier, TokenType::Assign, TokenType::String, TokenType::Terminator],
        ),
        Rule::new(
            RuleType::VarAssignNum,
            vec![TokenType::Identifier, TokenType::Assign, TokenType::Identifier, TokenType::Terminator],
        ),
    ])
}

fn tokens_of(source: &str) -> Vec<Token> {
    Lexer::new(source.to_string()).parse_input().unwrap()
}

fn assert_assignment(node: &Node, rule: &str, name: &str, value: &str) {
    assert_eq!(node.identifier, rule);
    assert_eq!(node.data, "");
    assert_eq!(node.children.len(), 2);
    assert_eq!(node.children[0].identifier, "name");
    assert_eq!(node.children[0].data, name);
    assert!(node.children[0].children.is_empty());
    assert_eq!(node.children[1].identifier, "value");
    assert_eq!(node.children[1].data, value);
    assert!(node.children[1].children.is_empty());
}

#[test]
fn string_assignment_node() {
    let nodes = grammar().parse(tokens_of("x = \"hello\";")).unwrap();
    assert_eq!(nodes.len(), 1);
    assert_assignment(&nodes[0], "VarAssignString", "x", "hello");
}

#[test]
fn number_assignment_node() {
    let nodes = grammar().parse(tokens_of("count = 5;")).unwrap();
    assert_eq!(nodes.len(), 1);
    assert_assignment(&nodes[0], "VarAssignNum", "count", "5");
}

#[test]
fn missing_assign_is_unmatched_at_one() {
    let result = grammar().parse(tokens_of("x 5;"));
    assert_eq!(result.err(), Some(SyntaxError::UnmatchedTokens(1)));
}

#[test]
fn several_statements_in_order() {
    let nodes = grammar().parse(tokens_of("a = \"one\";\nb = 2;\nc = \"three\";")).unwrap();
    assert_eq!(nodes.len(), 3);
    assert_assignment(&nodes[0], "VarAssignString", "a", "one");
    assert_assignment(&nodes[1], "VarAssignNum", "b", "2");
    assert_assignment(&nodes[2], "VarAssignString", "c", "three");
}

#[test]
fn no_tokens_gives_no_nodes() {
    let nodes = grammar().parse(Vec::new()).unwrap();
    assert!(nodes.is_empty());
}

#[test]
fn rule_longer_than_the_rest_is_unmatched() {
    let result = grammar().parse(tokens_of("a = 1; b ="));
    assert_eq!(result.err(), Some(SyntaxError::UnmatchedTokens(6)));
}

#[test]
fn trailing_token_is_unmatched() {
    let result = grammar().parse(tokens_of("a = 1; ;"));
    assert_eq!(result.err(), Some(SyntaxError::UnmatchedTokens(4)));
}

#[test]
fn first_matching_rule_wins() {
    let parser = Parser::new(vec![
        Rule::new(
            RuleType::VarAssignNum,
            vec![TokenType::Identifier, TokenType::Assign, TokenType::Identifier],
        ),
        Rule::new(
            RuleType::VarAssignString,
            vec![TokenType::Identifier, TokenType::Assign, TokenType::Identifier, TokenType::Terminator],
        ),
    ]);
    let result = parser.parse(tokens_of("a = b;"));
    assert_eq!(result.err(), Some(SyntaxError::UnmatchedTokens(3)));
    let nodes = parser.parse(tokens_of("a = b")).unwrap();
    assert_assignment(&nodes[0], "VarAssignNum", "a", "b");
}

#[test]
fn rule_type_names_and_positions() {
    assert_eq!(RuleType::VarAssignString.name(), "VarAssignString");
    assert_eq!(RuleType::VarAssignNum.name(), "VarAssignNum");
    assert_eq!(RuleType::VarAssignNum.capture_positions(), (0, 2));
}

#[test]
fn rule_new_keeps_its_fields() {
    let rule = Rule::new(
        RuleType::VarAssignNum,
        vec![TokenType::Identifier, TokenType::Assign, TokenType::Identifier],
    );
    assert_eq!(rule.identifier, RuleType::VarAssignNum);
    assert_eq!(rule.sequence.len(), 3);
    assert_eq!(grammar().rules.len(), 2);
}
