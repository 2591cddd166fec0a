use brainfuck::compiler::compile;
use brainfuck::interpreter::{Event, InputBuffer, Interpreter, MEMORY_SIZE};
use brainfuck::optimizer::optimize;
use brainfuck::token::Token;

const BUDGET: u64 = 10_000_000;

/// Compile, optimize and run a source against buffered input; return the
/// output bytes and the machine as it stopped.
fn run_source(src: &str, input: Vec<u8>) -> (Vec<u8>, Interpreter, bool) {
    let bytes: Vec<u8> = src.as_bytes().to_vec();
    let tokens = compile(&bytes).expect("source must compile");
    let mut cont = optimize(tokens);
    let mut interp = Interpreter::default();
    let mut inb = InputBuffer::new(input);
    let mut out: Vec<u8> = Vec::new();
    let done = interp.run(&mut cont, &mut inb, &mut out, BUDGET);
    (out, interp, done)
}

#[test]
fn fresh_machine_is_all_zero() {
    let interp = Interpreter::default();
    assert_eq!(interp.memory.len(), MEMORY_SIZE);
    assert!(interp.memory.iter().all(|c| *c == 0));
    assert_eq!(interp.dp, 0);
    assert!(interp.is_ready());
}

#[test]
fn three_plus_dot_writes_byte_three() {
    let (out, _, done) = run_source("+++.", vec![]);
    assert!(done);
    assert_eq!(out, vec![3u8]);
}

#[test]
fn multiply_loop_writes_letter_a() {
    let (out, _, done) = run_source("++++++++[>++++++++<-]>+.", vec![]);
    assert!(done);
    assert_eq!(out, vec![b'A']);
}

#[test]
fn input_stores_byte_and_writes_nothing() {
    let (out, interp, done) = run_source(",", vec![5]);
    assert!(done);
    assert!(out.is_empty());
    assert_eq!(interp.memory[0], 5);
    assert_eq!(interp.dp, 0);
}

#[test]
fn infinite_loop_never_finishes_its_budget() {
    let bytes: Vec<u8> = b"+[]".to_vec();
    let tokens = compile(&bytes).expect("an infinite loop still compiles");
    let mut cont = optimize(tokens);
    let mut interp = Interpreter::default();
    let mut inb = InputBuffer::new(vec![]);
    let mut out: Vec<u8> = Vec::new();
    let done = interp.run(&mut cont, &mut inb, &mut out, 100_000);
    assert!(!done);
    assert!(!cont.is_empty());
    assert!(out.is_empty());
}

#[test]
fn pointer_wraps_forward_by_full_tape() {
    let mut interp = Interpreter::default();
    let mut cont = vec![Token::Move(3), Token::Move(30000)];
    let mut inb = InputBuffer::new(vec![]);
    let mut out: Vec<u8> = Vec::new();
    assert!(interp.run(&mut cont, &mut inb, &mut out, BUDGET));
    assert_eq!(interp.dp, 3);
}

#[test]
fn pointer_wraps_backward_past_zero() {
    let (_, interp, done) = run_source("<", vec![]);
    assert!(done);
    assert_eq!(interp.dp, MEMORY_SIZE - 1);
}

#[test]
fn pointer_wraps_with_large_negative_delta() {
    let mut interp = Interpreter::default();
    let mut cont = vec![Token::Move(-60001)];
    let mut inb = InputBuffer::new(vec![]);
    let mut out: Vec<u8> = Vec::new();
    assert!(interp.run(&mut cont, &mut inb, &mut out, BUDGET));
    assert_eq!(interp.dp, MEMORY_SIZE - 1);
}

#[test]
fn cell_wraps_around_at_256() {
    let mut interp = Interpreter::default();
    let mut cont = vec![Token::IncValue(7), Token::IncValue(256)];
    let mut inb = InputBuffer::new(vec![]);
    let mut out: Vec<u8> = Vec::new();
    assert!(interp.run(&mut cont, &mut inb, &mut out, BUDGET));
    assert_eq!(interp.memory[0], 7);
}

#[test]
fn cell_wraps_below_zero() {
    let (out, _, done) = run_source("-.", vec![]);
    assert!(done);
    assert_eq!(out, vec![255u8]);
}

#[test]
fn input_at_end_of_buffer_reads_zero() {
    let (out, interp, done) = run_source(",>,<.", vec![7]);
    assert!(done);
    assert_eq!(interp.memory[0], 7);
    assert_eq!(interp.memory[1], 0);
    assert_eq!(out, vec![7u8]);
}

#[test]
fn loop_reexamines_cell_after_each_pass() {
    // Two passes: the counter cell goes 2, 1, 0 while the other cell
    // collects two increments.
    let (out, interp, done) = run_source("++[>+<-]>.", vec![]);
    assert!(done);
    assert_eq!(out, vec![2u8]);
    assert_eq!(interp.memory[0], 0);
}

#[test]
fn step_reports_output_event() {
    let mut interp = Interpreter::default();
    let mut cont = vec![Token::IncValue(9), Token::Output];
    assert_eq!(interp.step(&mut cont), Event::Running);
    assert_eq!(interp.step(&mut cont), Event::Output(9));
    assert_eq!(interp.step(&mut cont), Event::Done);
}

#[test]
fn step_asks_for_input_and_the_driver_stores_it() {
    let mut interp = Interpreter::default();
    let mut cont = vec![Token::Input];
    assert_eq!(interp.step(&mut cont), Event::Input);
    interp.write_memory(42);
    assert_eq!(interp.read_memory(), 42);
    assert_eq!(interp.step(&mut cont), Event::Done);
}

#[test]
fn skipped_loop_takes_one_step() {
    let mut interp = Interpreter::default();
    let mut cont = vec![Token::Loop(vec![Token::Output])];
    assert_eq!(interp.step(&mut cont), Event::Running);
    assert!(cont.is_empty());
}

#[test]
fn input_buffer_hands_bytes_in_order_then_zeros() {
    let mut inb = InputBuffer::new(vec![10, 20]);
    assert_eq!(inb.next_byte(), 10);
    assert_eq!(inb.next_byte(), 20);
    assert_eq!(inb.next_byte(), 0);
    assert_eq!(inb.next_byte(), 0);
}
