use brainfuck::brainfuck::Op;
use brainfuck::interp::{eval, eval_vec, run_brainfuck, RunError, State, HEAP_SIZE};

fn chars(s: &str) -> Vec<char> {
    s.chars().collect()
}

fn run(s: &str, input: &[u8]) -> Vec<u8> {
    run_brainfuck(&chars(s), input, 1_000_000).expect("program should finish")
}

#[test]
fn empty_program_prints_nothing() {
    assert_eq!(run("", &[]), Vec::<u8>::new());
}

#[test]
fn prints_at_sign() {
    // Scenario: 8 * 8 = 64, the byte value of '@'.
    assert_eq!(run("++++++++[>++++++++<-]>.", &[]), vec![64]);
}

#[test]
fn empty_nested_loop_terminates_with_no_output() {
    // Scenario: the guard is false on the first check, so the loop body
    // never runs.
    assert_eq!(run("[[]]", &[]), Vec::<u8>::new());
}

#[test]
fn unbalanced_source_fails_with_no_output() {
    assert_eq!(
        run_brainfuck(&chars("["), &[], 1_000_000),
        Err(RunError::UnbalancedBrackets)
    );
}

#[test]
fn endless_loop_exhausts_the_fuel() {
    assert_eq!(
        run_brainfuck(&chars("+[]"), &[], 10_000),
        Err(RunError::FuelExhausted)
    );
}

#[test]
fn read_stores_input_bytes_in_order() {
    assert_eq!(run(",.>,.", &[65, 66]), vec![65, 66]);
}

#[test]
fn read_past_the_input_stores_zero() {
    assert_eq!(run("+,.", &[]), vec![0]);
}

#[test]
fn reset_idiom_matches_explicit_reset() {
    // Idiom law on concrete cell values: draining a cell by single
    // decrements or single increments leaves the same state as the reset.
    assert_eq!(run("+++[-].", &[]), vec![0]);
    assert_eq!(run("+++[+].", &[]), vec![0]);
    assert_eq!(run("[-].", &[]), vec![0]);
}

#[test]
fn cell_wraps_around_after_256_increments() {
    let code = "+".repeat(256) + ".";
    assert_eq!(run(&code, &[]), vec![0]);
    let code5 = "+++++".to_string() + &"+".repeat(256) + ".";
    assert_eq!(run(&code5, &[]), vec![5]);
}

#[test]
fn cell_underflow_wraps_to_255() {
    assert_eq!(run("-.", &[]), vec![255]);
}

#[test]
fn pointer_wraps_around_the_tape() {
    // One step back from cell 0 is the last cell.
    assert_eq!(run("<+.", &[]), vec![1]);
    // A full lap of the tape returns to the start.
    let lap = "+".to_string() + &">".repeat(HEAP_SIZE) + ".";
    assert_eq!(run(&lap, &[]), vec![1]);
}

#[test]
fn interpretation_is_deterministic() {
    // Same source and same read responses: identical output, run after run,
    // and under a different fuel bound.
    let src = "++[>+++<-]>.,.";
    let a = run_brainfuck(&chars(src), &[7], 1_000).unwrap();
    let b = run_brainfuck(&chars(src), &[7], 1_000).unwrap();
    let c = run_brainfuck(&chars(src), &[7], 999_999).unwrap();
    assert_eq!(a, b);
    assert_eq!(a, c);
    assert_eq!(a, vec![6, 7]);
}

fn state_with_cell(c: u8) -> State {
    let mut data = vec![0u8; HEAP_SIZE];
    data[0] = c;
    State {
        curr_ptr: 0,
        data,
        output: Vec::new(),
        input: Vec::new(),
        input_pos: 0,
    }
}

#[test]
fn idiom_loops_match_reset_on_sample_cell_values() {
    for c in [0u8, 1, 5, 128, 255] {
        for dec in [true, false] {
            let body = if dec { Op::DecVal(1) } else { Op::IncVal(1) };
            let mut looped = state_with_cell(c);
            assert!(eval(&mut looped, &Op::While { ops: vec![body] }, 1_000));
            let mut reset = state_with_cell(c);
            assert!(eval(&mut reset, &Op::SetRegisterToZero, 1_000));
            assert_eq!(looped.data, reset.data, "cells differ for cell {}", c);
            assert_eq!(looped.curr_ptr, reset.curr_ptr);
            assert_eq!(looped.output, reset.output);
        }
    }
}

#[test]
fn two_hundred_fifty_six_increments_leave_the_cell_unchanged() {
    let mut st = state_with_cell(77);
    let ops: Vec<Op> = (0..256).map(|_| Op::IncVal(1)).collect();
    assert!(eval_vec(&mut st, &ops, 10));
    assert_eq!(st.data[0], 77);
}
