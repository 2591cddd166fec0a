use brainfuck::compiler::{compile, CompileError};
use brainfuck::token::Token;

fn compile_str(src: &str) -> Result<Vec<Token>, CompileError> {
    let bytes: Vec<u8> = src.as_bytes().to_vec();
    compile(&bytes)
}

#[test]
fn empty_source_compiles_to_empty_tree() {
    assert_eq!(compile_str("").unwrap(), Vec::<Token>::new());
}

#[test]
fn simple_instructions_compile_in_order() {
    let tokens = compile_str("><+-.,").unwrap();
    assert_eq!(
        tokens,
        vec![
            Token::Move(1),
            Token::Move(-1),
            Token::IncValue(1),
            Token::IncValue(-1),
            Token::Output,
            Token::Input,
        ]
    );
}

#[test]
fn comments_and_whitespace_are_ignored() {
    let tokens = compile_str("hello + world\n > ! ?").unwrap();
    assert_eq!(tokens, vec![Token::IncValue(1), Token::Move(1)]);
}

#[test]
fn nested_loops_compile_to_nested_bodies() {
    let tokens = compile_str("+[>[-]<]").unwrap();
    assert_eq!(
        tokens,
        vec![
            Token::IncValue(1),
            Token::Loop(vec![
                Token::Move(1),
                Token::Loop(vec![Token::IncValue(-1)]),
                Token::Move(-1),
            ]),
        ]
    );
}

#[test]
fn balanced_brackets_never_fail() {
    for src in ["", "[]", "[[]]", "[][]", "a[b[c]d[e]f]g", "+[>[-]<]", "[[][[]]][]"] {
        assert!(compile_str(src).is_ok(), "rejected balanced source {:?}", src);
    }
}

#[test]
fn infinite_loop_source_is_accepted() {
    // An empty-bodied loop over a nonzero cell never terminates at run
    // time, but it is a legitimate program and must compile.
    let tokens = compile_str("+[]").unwrap();
    assert_eq!(tokens, vec![Token::IncValue(1), Token::Loop(vec![])]);
}

#[test]
fn extra_close_reports_its_own_position() {
    let err = compile_str("+]").unwrap_err();
    assert_eq!(err, CompileError::ClosedNonexistentLoop { line: 1, position: 2 });
}

#[test]
fn extra_close_after_balanced_pair_reports_its_own_position() {
    let err = compile_str("[]]").unwrap_err();
    assert_eq!(err, CompileError::ClosedNonexistentLoop { line: 1, position: 3 });
}

#[test]
fn extra_close_position_counts_lines() {
    let err = compile_str("++\n+]").unwrap_err();
    assert_eq!(err, CompileError::ClosedNonexistentLoop { line: 2, position: 2 });
}

#[test]
fn unmatched_open_reports_that_bracket() {
    let err = compile_str("++[").unwrap_err();
    assert_eq!(err, CompileError::OpenedNonexistentLoop { line: 1, position: 3 });
}

#[test]
fn unmatched_open_skips_balanced_nested_pairs() {
    // The `[` at line 2 position 2 stays open; the later pair is balanced
    // and must be skipped when unwinding.
    let err = compile_str("ab\n+[+[]").unwrap_err();
    assert_eq!(err, CompileError::OpenedNonexistentLoop { line: 2, position: 2 });
}

#[test]
fn innermost_unmatched_open_is_reported() {
    let err = compile_str("[[").unwrap_err();
    assert_eq!(err, CompileError::OpenedNonexistentLoop { line: 1, position: 2 });
}

#[test]
fn first_error_wins() {
    // The stray `]` comes before the stray `[`.
    let err = compile_str("]+[").unwrap_err();
    assert_eq!(err, CompileError::ClosedNonexistentLoop { line: 1, position: 1 });
}

#[test]
fn search_extra_loop_skips_balanced_pairs() {
    let mut stack = vec![('[', 1, 1), ('[', 1, 2), (']', 1, 3)];
    assert_eq!(brainfuck::compiler::search_extra_loop(&mut stack), (1, 1));
    assert!(stack.is_empty());
}

#[test]
fn search_extra_loop_pops_through_the_found_bracket() {
    let mut stack = vec![('[', 1, 1), ('[', 2, 3), (']', 2, 4)];
    assert_eq!(brainfuck::compiler::search_extra_loop(&mut stack), (1, 1));
    assert!(stack.is_empty());
}

#[test]
fn search_extra_loop_takes_innermost_open_and_keeps_the_rest() {
    let mut stack = vec![('[', 1, 1), ('[', 2, 4)];
    assert_eq!(brainfuck::compiler::search_extra_loop(&mut stack), (2, 4));
    assert_eq!(stack, vec![('[', 1, 1)]);
}
