use brainfuck::optimizer::optimize;
use brainfuck::token::{clone_tokens, Token};

#[test]
fn adjacent_increments_fold_into_one() {
    let folded = optimize(vec![
        Token::IncValue(1),
        Token::IncValue(1),
        Token::IncValue(1),
    ]);
    assert_eq!(folded, vec![Token::IncValue(3)]);
}

#[test]
fn adjacent_moves_fold_into_one() {
    let folded = optimize(vec![Token::Move(1), Token::Move(1), Token::Move(-1)]);
    assert_eq!(folded, vec![Token::Move(1)]);
}

#[test]
fn opposite_runs_leave_a_zero_instruction() {
    // A zero net delta is kept in place, not pruned.
    let folded = optimize(vec![Token::IncValue(1), Token::IncValue(-1)]);
    assert_eq!(folded, vec![Token::IncValue(0)]);
}

#[test]
fn different_kinds_do_not_fold() {
    let tokens = vec![
        Token::IncValue(1),
        Token::Move(1),
        Token::IncValue(1),
        Token::Output,
        Token::IncValue(1),
    ];
    let folded = optimize(clone_tokens(&tokens));
    assert_eq!(folded, tokens);
}

#[test]
fn loop_bodies_are_optimized_recursively() {
    let folded = optimize(vec![Token::Loop(vec![
        Token::IncValue(-1),
        Token::IncValue(-1),
        Token::Move(1),
        Token::Move(1),
    ])]);
    assert_eq!(
        folded,
        vec![Token::Loop(vec![Token::IncValue(-2), Token::Move(2)])]
    );
}

#[test]
fn loops_break_arithmetic_runs() {
    let folded = optimize(vec![
        Token::Move(1),
        Token::Loop(vec![Token::IncValue(-1)]),
        Token::Move(1),
    ]);
    assert_eq!(
        folded,
        vec![
            Token::Move(1),
            Token::Loop(vec![Token::IncValue(-1)]),
            Token::Move(1),
        ]
    );
}

#[test]
fn optimizing_twice_changes_nothing() {
    let tokens = vec![
        Token::IncValue(1),
        Token::IncValue(1),
        Token::Move(1),
        Token::Move(1),
        Token::Loop(vec![Token::IncValue(-1), Token::IncValue(-1), Token::Output]),
        Token::Input,
        Token::Move(-1),
        Token::Move(-1),
    ];
    let once = optimize(tokens);
    let twice = optimize(clone_tokens(&once));
    assert_eq!(twice, once);
}

#[test]
fn optimization_keeps_output_input_loop_order_and_count() {
    let tokens = vec![
        Token::Output,
        Token::IncValue(1),
        Token::IncValue(1),
        Token::Input,
        Token::Loop(vec![Token::Output, Token::Output]),
        Token::Move(1),
        Token::Move(1),
        Token::Output,
    ];
    let folded = optimize(tokens);
    let shape: Vec<u8> = folded
        .iter()
        .map(|t| match t {
            Token::Output => b'.',
            Token::Input => b',',
            Token::Loop(_) => b'[',
            Token::Move(_) => b'>',
            Token::IncValue(_) => b'+',
        })
        .filter(|b| *b == b'.' || *b == b',' || *b == b'[')
        .collect();
    assert_eq!(shape, b".,[.".to_vec());
}

#[test]
fn folded_deltas_exceed_a_byte() {
    let many: Vec<Token> = (0..300).map(|_| Token::IncValue(1)).collect();
    assert_eq!(optimize(many), vec![Token::IncValue(300)]);
}
