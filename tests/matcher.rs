use glob_experiment::compiler::compile;
use glob_experiment::matcher::{path_matches, MatchResult};
use glob_experiment::parser::{AstNode, Pattern};

fn result_of(path: &str, pattern: &Pattern) -> MatchResult {
    let program = compile(pattern).expect("pattern compiles");
    path_matches(path.as_bytes(), &program)
}

fn assert_complete(path: &str, pattern: Pattern) {
    let result = result_of(path, &pattern);
    assert!(!result.valid_as_prefix);
    assert!(result.valid_as_complete_match);
}

fn assert_prefix(path: &str, pattern: Pattern) {
    let result = result_of(path, &pattern);
    assert!(result.valid_as_prefix);
    assert!(!result.valid_as_complete_match);
}

fn assert_complete_and_prefix(path: &str, pattern: Pattern) {
    let result = result_of(path, &pattern);
    assert!(result.valid_as_prefix);
    assert!(result.valid_as_complete_match);
}

fn assert_none(path: &str, pattern: Pattern) {
    let result = result_of(path, &pattern);
    assert!(!result.valid_as_prefix);
    assert!(!result.valid_as_complete_match);
}

fn literal(s: &str) -> AstNode {
    AstNode::LiteralString(s.as_bytes().to_vec())
}

#[test]
fn empty_pattern_matches_empty_path() {
    assert_complete("", Pattern { nodes: vec![] });
}

#[test]
fn single_literal_component() {
    assert_complete("foo", Pattern { nodes: vec![literal("foo")] });
}

#[test]
fn mismatching_literal_string() {
    assert_none("foo", Pattern { nodes: vec![literal("bar")] });
}

#[test]
fn literal_with_separator() {
    let pattern = Pattern { nodes: vec![literal("foo"), AstNode::Separator, literal("bar")] };
    assert_complete("foo/bar", pattern);
}

#[test]
fn wildcard_matches_any_component() {
    assert_complete("foobarbaz", Pattern { nodes: vec![AstNode::Wildcard] });
}

#[test]
fn wildcard_matches_infix() {
    let pattern = Pattern { nodes: vec![literal("foo"), AstNode::Wildcard, literal("baz")] };
    assert_complete("foobarbaz", pattern);
}

#[test]
fn wildcard_matches_prefix() {
    let pattern = Pattern { nodes: vec![AstNode::Wildcard, literal("baz")] };
    assert_complete("foobarbaz", pattern);
}

#[test]
fn wildcard_matches_suffix() {
    let pattern = Pattern { nodes: vec![literal("foo"), AstNode::Wildcard] };
    assert_complete("foobarbaz", pattern);
}

fn foo_recurse() -> Pattern {
    Pattern { nodes: vec![literal("foo"), AstNode::Separator, AstNode::Recurse] }
}

#[test]
fn recurse_matches_prefix() {
    assert_complete_and_prefix("foo", foo_recurse());
}

#[test]
fn recurse_matches_nested_1() {
    assert_complete_and_prefix("foo/bar", foo_recurse());
}

#[test]
fn recurse_matches_nested_2() {
    assert_complete_and_prefix("foo/bar/baz", foo_recurse());
}

fn foo_recurse_bar() -> Pattern {
    Pattern {
        nodes: vec![
            literal("foo"),
            AstNode::Separator,
            AstNode::Recurse,
            AstNode::Separator,
            literal("bar"),
        ],
    }
}

#[test]
fn recurse_matches_infix_empty() {
    assert_complete_and_prefix("foo/bar", foo_recurse_bar());
}

#[test]
fn recurse_matches_infix_nested_1() {
    assert_complete_and_prefix("foo/baz/bar", foo_recurse_bar());
}

#[test]
fn recurse_matches_infix_nested_2() {
    assert_complete_and_prefix("foo/baz/quux/bar", foo_recurse_bar());
}

#[test]
fn recurse_encourages_infix_further_match() {
    assert_prefix("foo", foo_recurse_bar());
}

#[test]
fn recurse_encourages_infix_further_match_1() {
    assert_prefix("foo/baz", foo_recurse_bar());
}

#[test]
fn match_result_none_is_all_false() {
    let r = MatchResult::none();
    assert!(!r.valid_as_prefix);
    assert!(!r.valid_as_complete_match);
}
