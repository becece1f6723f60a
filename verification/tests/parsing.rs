use brainfuck::brainfuck::{compact, get_ast, Op, ParseError};

fn chars(s: &str) -> Vec<char> {
    s.chars().collect()
}

fn parse(s: &str) -> Vec<Op> {
    let (ops, _) = get_ast(&chars(s)).expect("source should parse");
    ops
}

#[test]
fn parses_empty_source() {
    let (ops, consumed) = get_ast(&chars("")).unwrap();
    assert_eq!(ops, vec![]);
    assert_eq!(consumed, 0);
}

#[test]
fn parses_primitives() {
    let ops = parse("><+-.,");
    assert_eq!(
        ops,
        vec![
            Op::IncPointer(1),
            Op::DecPointer(1),
            Op::IncVal(1),
            Op::DecVal(1),
            Op::Print,
            Op::Read,
        ]
    );
}

#[test]
fn skips_unrecognized_characters() {
    let ops = parse("a+b c#+!");
    assert_eq!(ops, vec![Op::IncVal(1), Op::IncVal(1)]);
}

#[test]
fn parses_nested_loops() {
    let ops = parse("[[]]");
    assert_eq!(
        ops,
        vec![Op::While {
            ops: vec![Op::While { ops: vec![] }],
        }]
    );
}

#[test]
fn unmatched_open_bracket_fails() {
    assert_eq!(get_ast(&chars("[")), Err(ParseError::UnbalancedBrackets));
    assert_eq!(get_ast(&chars("+[->")), Err(ParseError::UnbalancedBrackets));
    assert_eq!(get_ast(&chars("[[]")), Err(ParseError::UnbalancedBrackets));
}

#[test]
fn stray_close_bracket_stops_parsing() {
    let (ops, consumed) = get_ast(&chars("++]++")).unwrap();
    assert_eq!(ops, vec![Op::IncVal(1), Op::IncVal(1)]);
    assert_eq!(consumed, 2);
}

#[test]
fn compact_merges_runs() {
    let ops = compact(&parse("+++>>><<--"));
    assert_eq!(
        ops,
        vec![
            Op::IncVal(3),
            Op::IncPointer(3),
            Op::DecPointer(2),
            Op::DecVal(2),
        ]
    );
}

#[test]
fn compact_stops_merging_at_print_and_read() {
    let ops = compact(&parse("+.+,+"));
    assert_eq!(
        ops,
        vec![
            Op::IncVal(1),
            Op::Print,
            Op::IncVal(1),
            Op::Read,
            Op::IncVal(1),
        ]
    );
}

#[test]
fn compact_merges_same_kind_counts() {
    let ops = compact(&[Op::IncVal(2), Op::IncVal(5), Op::IncVal(1)]);
    assert_eq!(ops, vec![Op::IncVal(8)]);
}

#[test]
fn compact_cell_counts_wrap_modulo_256() {
    let ops = compact(&[Op::IncVal(200), Op::IncVal(100)]);
    assert_eq!(ops, vec![Op::IncVal(44)]);
}

#[test]
fn reset_idiom_replaces_loop() {
    // Scenario: "+[-]" optimizes to a single reset with no residual loop.
    let ops = compact(&parse("+[-]"));
    assert_eq!(ops, vec![Op::IncVal(1), Op::SetRegisterToZero]);
    assert!(ops.iter().all(|op| !matches!(op, Op::While { .. })));
}

#[test]
fn increment_idiom_replaces_loop() {
    let ops = compact(&parse("[+]"));
    assert_eq!(ops, vec![Op::SetRegisterToZero]);
}

#[test]
fn two_step_loop_is_not_the_idiom() {
    let ops = compact(&parse("[--]"));
    assert_eq!(
        ops,
        vec![Op::While {
            ops: vec![Op::DecVal(2)],
        }]
    );
}

#[test]
fn loop_bodies_are_optimized_recursively() {
    let ops = compact(&parse("[>>[++]<<]"));
    assert_eq!(
        ops,
        vec![Op::While {
            ops: vec![
                Op::IncPointer(2),
                Op::While {
                    ops: vec![Op::IncVal(2)],
                },
                Op::DecPointer(2),
            ],
        }]
    );
}

#[test]
fn optimize_is_idempotent_on_parsed_sources() {
    for src in ["", "+++>><<--", "+[-]", "[[]]", "+.+,+", "[>>[++]<<]", "[--]"] {
        let once = compact(&parse(src));
        let twice = compact(&once);
        assert_eq!(twice, once, "optimizing twice changed the tree for {:?}", src);
    }
}

#[test]
fn optimize_is_idempotent_on_arbitrary_sequences() {
    let weird = vec![
        Op::SetRegisterToZero,
        Op::IncVal(3),
        Op::IncVal(3),
        Op::SetRegisterToZero,
        Op::IncPointer(5),
        Op::IncPointer(7),
        Op::While {
            ops: vec![Op::DecVal(1)],
        },
    ];
    let once = compact(&weird);
    let twice = compact(&once);
    assert_eq!(twice, once);
}
