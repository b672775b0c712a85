use glob_experiment::parser::{next_node, parse, AstNode, CharacterClass, Pattern};

fn literal(s: &str) -> AstNode {
    AstNode::LiteralString(s.as_bytes().to_vec())
}

fn one_node(input: &[u8]) -> (AstNode, Vec<u8>) {
    let mut out = Vec::new();
    let rest = next_node(input, &mut out).to_vec();
    assert_eq!(out.len(), 1);
    (out.pop().unwrap(), rest)
}

#[test]
fn test_parse_prefix() {
    let pattern = parse(b"/Users/fdncred/src");
    assert_eq!(
        pattern.nodes,
        vec![
            AstNode::RootDir,
            literal("Users"),
            AstNode::Separator,
            literal("fdncred"),
            AstNode::Separator,
            literal("src"),
        ]
    );
}

#[test]
fn test_parse_root_dir() {
    let pattern = parse(b"/");
    assert_eq!(pattern.nodes, vec![AstNode::RootDir]);
}

#[test]
fn test_parse_cur_dir() {
    let pattern = parse(b"./");
    assert_eq!(pattern.nodes, vec![AstNode::CurDir]);
}

#[test]
fn test_parse_parent_dir() {
    let pattern = parse(b"../");
    assert_eq!(pattern.nodes, vec![AstNode::ParentDir]);
}

#[test]
fn test_parse_recurse() {
    let pattern = parse(b"**");
    assert_eq!(pattern.nodes, vec![AstNode::Recurse]);
}

#[test]
fn test_parse_normal() {
    let pattern = parse(b"src");
    assert_eq!(pattern.nodes, vec![literal("src")]);
}

#[test]
fn test_token_any_character() {
    let (node, remaining) = one_node(b"?rest");
    assert!(matches!(node, AstNode::AnyCharacter));
    assert_eq!(remaining, b"rest");
}

#[test]
fn test_token_wildcard() {
    let (node, remaining) = one_node(b"*rest");
    assert!(matches!(node, AstNode::Wildcard));
    assert_eq!(remaining, b"rest");
}

#[test]
fn test_token_alternatives() {
    let (node, remaining) = one_node(b"{a,b}rest");
    if let AstNode::Alternatives { choices } = node {
        assert_eq!(choices.len(), 2);
        assert_eq!(choices[0].nodes, vec![literal("a")]);
        assert_eq!(choices[1].nodes, vec![literal("b")]);
    } else {
        panic!("Expected Alternatives node");
    }
    assert_eq!(remaining, b"rest");
}

#[test]
fn test_token_character_class() {
    let (node, remaining) = one_node(b"[a-z]rest");
    if let AstNode::Characters(classes) = node {
        assert_eq!(classes, vec![CharacterClass::Range('a', 'z')]);
    } else {
        panic!("Expected Characters node");
    }
    assert_eq!(remaining, b"rest");
}

#[test]
fn test_token_repeat() {
    let (node, remaining) = one_node(b"<a:2>rest");
    if let AstNode::Repeat { min, max, pattern } = node {
        assert_eq!(min, 2);
        assert_eq!(max, 2);
        assert_eq!(pattern.nodes, vec![literal("a")]);
    } else {
        panic!("Expected Repeat node");
    }
    assert_eq!(remaining, b"rest");
}

#[test]
fn test_token_literal_string() {
    let (node, remaining) = one_node(b"literal*rest");
    assert_eq!(node, literal("literal"));
    assert_eq!(remaining, b"*rest");
}

#[test]
fn test_parse_glob_wildcard() {
    let pattern = parse(b"src/*");
    assert_eq!(pattern.nodes, vec![literal("src"), AstNode::Separator, AstNode::Wildcard]);
}

#[test]
fn test_parse_glob_any_character() {
    let pattern = parse(b"src/fi?e");
    assert_eq!(
        pattern.nodes,
        vec![literal("src"), AstNode::Separator, literal("fi"), AstNode::AnyCharacter, literal("e")]
    );
}

#[test]
fn test_parse_glob_alternatives() {
    let pattern = parse(b"src/{file,dir}");
    assert_eq!(
        pattern.nodes,
        vec![
            literal("src"),
            AstNode::Separator,
            AstNode::Alternatives {
                choices: vec![
                    Pattern { nodes: vec![literal("file")] },
                    Pattern { nodes: vec![literal("dir")] },
                ],
            },
        ]
    );
}

#[test]
fn test_parse_glob_character_class() {
    let pattern = parse(b"src/[a-z]ile");
    assert_eq!(
        pattern.nodes,
        vec![
            literal("src"),
            AstNode::Separator,
            AstNode::Characters(vec![CharacterClass::Range('a', 'z')]),
            literal("ile"),
        ]
    );
}

#[test]
fn test_parse_glob_repeat() {
    let pattern = parse(b"src/<a:2>");
    assert_eq!(
        pattern.nodes,
        vec![
            literal("src"),
            AstNode::Separator,
            AstNode::Repeat { min: 2, max: 2, pattern: Pattern { nodes: vec![literal("a")] } },
        ]
    );
}

#[test]
fn test_parse_glob_single_character() {
    let pattern = parse(b"src/f?le");
    assert_eq!(
        pattern.nodes,
        vec![literal("src"), AstNode::Separator, literal("f"), AstNode::AnyCharacter, literal("le")]
    );
}

#[test]
fn test_parse_glob_multiple_wildcards() {
    let pattern = parse(b"src/*/file/*");
    assert_eq!(
        pattern.nodes,
        vec![
            literal("src"),
            AstNode::Separator,
            AstNode::Wildcard,
            AstNode::Separator,
            literal("file"),
            AstNode::Separator,
            AstNode::Wildcard,
        ]
    );
}

#[test]
fn test_parse_glob_complex_pattern() {
    let pattern = parse(b"src/{file,dir}/[a-z]*.{rs,txt}");
    assert_eq!(
        pattern.nodes,
        vec![
            literal("src"),
            AstNode::Separator,
            AstNode::Alternatives {
                choices: vec![
                    Pattern { nodes: vec![literal("file")] },
                    Pattern { nodes: vec![literal("dir")] },
                ],
            },
            AstNode::Separator,
            AstNode::Characters(vec![CharacterClass::Range('a', 'z')]),
            AstNode::Wildcard,
            literal("."),
            AstNode::Alternatives {
                choices: vec![
                    Pattern { nodes: vec![literal("rs")] },
                    Pattern { nodes: vec![literal("txt")] },
                ],
            },
        ]
    );
}

#[test]
fn unclosed_brace_is_literal() {
    assert_eq!(parse(b"{abc").nodes, vec![literal("{abc")]);
}

#[test]
fn unclosed_bracket_is_literal() {
    assert_eq!(parse(b"[ab").nodes, vec![literal("[ab")]);
}

#[test]
fn unclosed_angle_is_literal() {
    assert_eq!(parse(b"<a:2").nodes, vec![literal("<a"), literal(":2")]);
}

#[test]
fn repeat_with_bad_count_is_literal() {
    assert_eq!(parse(b"<a:x>").nodes[0], literal("<a"));
    assert_eq!(parse(b"<a:4294967296>").nodes[0], literal("<a"));
    assert_eq!(parse(b"<a:3,1>").nodes[0], literal("<a"));
}

#[test]
fn repeat_with_range_of_counts() {
    assert_eq!(
        parse(b"<a:1,3>").nodes,
        vec![AstNode::Repeat { min: 1, max: 3, pattern: Pattern { nodes: vec![literal("a")] } }]
    );
    assert_eq!(
        parse(b"<a:4294967295>").nodes,
        vec![AstNode::Repeat {
            min: 4294967295,
            max: 4294967295,
            pattern: Pattern { nodes: vec![literal("a")] },
        }]
    );
}

#[test]
fn dot_only_at_component_boundary() {
    assert_eq!(parse(b".hidden").nodes, vec![literal(".hidden")]);
    assert_eq!(parse(b"a/./b").nodes, vec![literal("a"), AstNode::Separator, literal("b")]);
    assert_eq!(
        parse(b"a/../b").nodes,
        vec![literal("a"), AstNode::Separator, AstNode::ParentDir, AstNode::Separator, literal("b")]
    );
}

#[test]
fn character_class_with_multibyte_characters() {
    assert_eq!(
        parse("[é-ü]".as_bytes()).nodes,
        vec![AstNode::Characters(vec![CharacterClass::Range('é', 'ü')])]
    );
    assert_eq!(
        parse("[x€]".as_bytes()).nodes,
        vec![AstNode::Characters(vec![CharacterClass::Single('x'), CharacterClass::Single('€')])]
    );
}

#[test]
fn nested_alternatives_and_empty_choice() {
    assert_eq!(
        parse(b"{a,{b,c},}").nodes,
        vec![AstNode::Alternatives {
            choices: vec![
                Pattern { nodes: vec![literal("a")] },
                Pattern {
                    nodes: vec![AstNode::Alternatives {
                        choices: vec![
                            Pattern { nodes: vec![literal("b")] },
                            Pattern { nodes: vec![literal("c")] },
                        ],
                    }],
                },
                Pattern { nodes: vec![] },
            ],
        }]
    );
}

#[test]
fn empty_pattern_parses_to_nothing() {
    assert_eq!(parse(b"").nodes, vec![]);
}

#[test]
fn repeated_separators_collapse() {
    assert_eq!(parse(b"a//b/").nodes, vec![literal("a"), AstNode::Separator, literal("b")]);
}
