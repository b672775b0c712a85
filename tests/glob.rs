use glob_experiment::compiler::{
    compile, CompileError, CounterId, Instruction, Program, ProgramOffset,
};
use glob_experiment::matcher::{path_matches, MatchResult};
use glob_experiment::parser::{parse, AstNode, Pattern};
use glob_experiment::path::{components_of, PathComponent};
use glob_experiment::utf8::length_of_first_char;

fn glob_match(pattern: &str, path: &str) -> MatchResult {
    let program = compile(&parse(pattern.as_bytes())).expect("pattern compiles");
    path_matches(path.as_bytes(), &program)
}

fn bits(r: MatchResult) -> (bool, bool) {
    (r.valid_as_prefix, r.valid_as_complete_match)
}

const NONE: (bool, bool) = (false, false);
const PREFIX: (bool, bool) = (true, false);
const COMPLETE: (bool, bool) = (false, true);
const BOTH: (bool, bool) = (true, true);

#[test]
fn scenario_literal() {
    assert_eq!(bits(glob_match("foo", "foo")), COMPLETE);
    assert_eq!(bits(glob_match("foo", "bar")), NONE);
    assert_eq!(bits(glob_match("foo/bar", "foo/bar")), COMPLETE);
}

#[test]
fn scenario_trailing_recurse() {
    assert_eq!(bits(glob_match("foo/**", "foo")), BOTH);
    assert_eq!(bits(glob_match("foo/**", "foo/baz/quux")), BOTH);
}

#[test]
fn scenario_infix_recurse() {
    // more components could follow and match again: `foo/baz/bar/x/bar`
    assert_eq!(bits(glob_match("foo/**/bar", "foo/baz/bar")), BOTH);
    assert_eq!(bits(glob_match("foo/**/bar", "foo/baz")), PREFIX);
}

#[test]
fn scenario_wildcard_class_repeat_alternatives() {
    assert_eq!(bits(glob_match("*baz", "foobarbaz")), COMPLETE);
    assert_eq!(bits(glob_match("[a-z]ile", "file")), COMPLETE);
    assert_eq!(bits(glob_match("<a:2>", "aa")), COMPLETE);
    assert_eq!(bits(glob_match("{file,dir}", "file")), COMPLETE);
}

#[test]
fn empty_pattern_matches_only_empty_path() {
    assert_eq!(bits(glob_match("", "")), COMPLETE);
    assert_eq!(bits(glob_match("", "a")), NONE);
    assert_eq!(bits(glob_match("", "a/b")), NONE);
}

#[test]
fn recurse_alone_matches_every_path() {
    assert_eq!(bits(glob_match("**", "a")), BOTH);
    assert_eq!(bits(glob_match("**", "a/b/c")), BOTH);
    assert_eq!(bits(glob_match("**", "")), BOTH);
}

#[test]
fn trailing_recurse_descends_into_matches() {
    assert_eq!(bits(glob_match("src/*/**", "src/a")), BOTH);
    assert_eq!(bits(glob_match("src/*/**", "src/a/b")), BOTH);
    assert!(glob_match("src/*/**", "src").valid_as_prefix);
}

#[test]
fn repeat_bounds() {
    assert_eq!(bits(glob_match("<a:2>", "a")), NONE);
    assert_eq!(bits(glob_match("<a:2>", "aaa")), NONE);
    assert_eq!(bits(glob_match("<a:1,3>", "aaa")), COMPLETE);
    assert_eq!(bits(glob_match("<a:1,3>", "aaaa")), NONE);
    // the body of a repetition runs once before its count is tested
    assert_eq!(bits(glob_match("<ab:0,2>", "")), PREFIX);
}

#[test]
fn class_mismatch_and_multibyte() {
    assert_eq!(bits(glob_match("[a-c]", "d")), NONE);
    assert_eq!(bits(glob_match("[é-ü]x", "éx")), COMPLETE);
    assert_eq!(bits(glob_match("?x", "éx")), COMPLETE);
}

#[test]
fn invalid_utf8_counts_as_one_character() {
    let program = compile(&parse(b"?x")).unwrap();
    assert_eq!(bits(path_matches(&[0xFF, b'x'], &program)), COMPLETE);
    assert_eq!(length_of_first_char(&[0xFF, b'x']), Some(1));
    assert_eq!(length_of_first_char("€".as_bytes()), Some(3));
    assert_eq!(length_of_first_char(b""), None);
}

#[test]
fn absolute_and_parent_components() {
    assert_eq!(bits(glob_match("/foo", "/foo")), COMPLETE);
    assert_eq!(bits(glob_match("/foo", "foo")), NONE);
    assert_eq!(bits(glob_match("/foo", "")), PREFIX);
    assert_eq!(bits(glob_match("../a", "../a")), COMPLETE);
    assert_eq!(bits(glob_match("./a", "./a")), COMPLETE);
}

#[test]
fn compiled_wildcard_gadget() {
    let program = compile(&parse(b"*")).unwrap();
    assert_eq!(
        program.instructions,
        vec![
            Instruction::Alternative(ProgramOffset(2)),
            Instruction::Jump(ProgramOffset(4)),
            Instruction::AnyCharacter,
            Instruction::Jump(ProgramOffset(0)),
            Instruction::Complete,
        ]
    );
    assert_eq!(program.counters, 0);
    assert_eq!(program.absolute_prefix, None);
}

#[test]
fn compiled_alternatives_and_repeat() {
    let program = compile(&parse(b"{a,b,c}")).unwrap();
    assert_eq!(
        program.instructions,
        vec![
            Instruction::Alternative(ProgramOffset(4)),
            Instruction::Alternative(ProgramOffset(6)),
            Instruction::LiteralString(b"a".to_vec()),
            Instruction::Jump(ProgramOffset(8)),
            Instruction::LiteralString(b"b".to_vec()),
            Instruction::Jump(ProgramOffset(8)),
            Instruction::LiteralString(b"c".to_vec()),
            Instruction::Jump(ProgramOffset(8)),
            Instruction::Complete,
        ]
    );
    let program = compile(&parse(b"<a:1,2>")).unwrap();
    assert_eq!(
        program.instructions,
        vec![
            Instruction::Increment(CounterId(0)),
            Instruction::LiteralString(b"a".to_vec()),
            Instruction::BranchIfLessThan(ProgramOffset(0), CounterId(0), 1),
            Instruction::BranchIfLessThan(ProgramOffset(5), CounterId(0), 2),
            Instruction::Jump(ProgramOffset(6)),
            Instruction::Alternative(ProgramOffset(0)),
            Instruction::Complete,
        ]
    );
    assert_eq!(program.counters, 1);
}

#[test]
fn absolute_prefix_of_rooted_pattern() {
    let program = compile(&parse(b"/usr/*")).unwrap();
    assert_eq!(program.absolute_prefix, Some(b"/".to_vec()));
    assert_eq!(program.instructions[0], Instruction::RootDir);
}

fn repeats(n: usize) -> Pattern {
    let mut nodes = Vec::new();
    for _ in 0..n {
        nodes.push(AstNode::Repeat { min: 1, max: 1, pattern: Pattern { nodes: vec![] } });
    }
    Pattern { nodes }
}

#[test]
fn counter_budget() {
    let program = compile(&repeats(65535)).unwrap();
    assert_eq!(program.counters, 65535);
    assert_eq!(compile(&repeats(65536)), Err(CompileError::TooManyRepeats));
}

#[test]
fn path_components() {
    assert_eq!(
        components_of(b"/a//./b/../"),
        vec![
            PathComponent::RootDir,
            PathComponent::Normal(b"a".to_vec()),
            PathComponent::Normal(b"b".to_vec()),
            PathComponent::ParentDir,
        ]
    );
    assert_eq!(components_of(b"./a"), vec![PathComponent::CurDir, PathComponent::Normal(b"a".to_vec())]);
    assert_eq!(components_of(b""), vec![]);
}

#[test]
fn leading_components_of_a_match_are_prefixes() {
    assert_eq!(bits(glob_match("foo/*/bar", "foo/x/bar")), COMPLETE);
    assert_eq!(bits(glob_match("foo/*/bar", "foo/x")), PREFIX);
    assert_eq!(bits(glob_match("foo/*/bar", "foo")), PREFIX);
    assert_eq!(bits(glob_match("foo/**/bar", "foo/bar/x/bar")), BOTH);
    assert!(glob_match("foo/**/bar", "foo/bar/x").valid_as_prefix);
}

#[test]
fn matching_is_total_on_any_program() {
    let out_of_range = Program {
        instructions: vec![Instruction::Jump(ProgramOffset(7))],
        counters: 0,
        absolute_prefix: None,
    };
    assert_eq!(bits(path_matches(b"a", &out_of_range)), NONE);
    let bad_counter = Program {
        instructions: vec![Instruction::Increment(CounterId(3)), Instruction::Complete],
        counters: 0,
        absolute_prefix: None,
    };
    assert_eq!(bits(path_matches(b"", &bad_counter)), NONE);
    let empty = Program { instructions: vec![], counters: 0, absolute_prefix: None };
    assert_eq!(bits(path_matches(b"a/b", &empty)), NONE);
}

#[test]
fn parsing_is_total_on_odd_input() {
    let inputs: Vec<&[u8]> = vec![
        b"{", b"[", b"<", b"{{{", b"[-]", b"<:>", b"<a:1,>", b"\xff\xfe", b"[\xff]", b"a,b:c>d]",
        b"\\", b"{a,[b}", b"<{a,b}:2>",
    ];
    for input in inputs {
        let pattern = parse(input);
        let program = compile(&pattern).unwrap();
        let _ = path_matches(input, &program);
    }
    assert_eq!(
        parse(b"<{a,b}:2>").nodes,
        vec![AstNode::Repeat {
            min: 2,
            max: 2,
            pattern: Pattern {
                nodes: vec![AstNode::Alternatives {
                    choices: vec![
                        Pattern { nodes: vec![AstNode::LiteralString(b"a".to_vec())] },
                        Pattern { nodes: vec![AstNode::LiteralString(b"b".to_vec())] },
                    ],
                }],
            },
        }]
    );
}

#[test]
fn complete_match_keeps_looking_for_a_prefix() {
    assert_eq!(bits(glob_match("{foo,foo/bar}", "foo")), BOTH);
    assert_eq!(bits(glob_match("{foo,foo/bar}", "foo/bar")), COMPLETE);
    assert_eq!(bits(glob_match("**", "")), BOTH);
}

#[test]
fn cloned_pattern_and_default_program() {
    let pattern = parse(b"src/{a,<b:1,2>}/[x-z]*");
    let copy = pattern.clone();
    assert_eq!(copy, pattern);
    assert_eq!(copy.nodes[2].clone(), pattern.nodes[2]);
    let program = Program::default();
    assert!(program.instructions.is_empty());
    assert_eq!(program.counters, 0);
    assert_eq!(program.absolute_prefix, None);
}
