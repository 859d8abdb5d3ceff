use interpreter::machine::{ExecError, Machine, TAPE_LEN};
use interpreter::program::{find_matching_brackets, parse, tokenize, Instr, Op, ParseError, Program};

fn rec(op: Op, count: usize) -> Instr {
    Instr { op, count }
}

fn run_source(source: &str, input: &[u8]) -> (Machine, Vec<u8>) {
    let program = parse(source).unwrap();
    let mut machine = Machine::new();
    let output = machine.run(&program, &input.to_vec(), 10_000_000).unwrap();
    assert!(machine.halted(&program));
    (machine, output)
}

#[test]
fn tokenize_compresses_repeatable_runs() {
    let tokens = tokenize("+++>>--<");
    assert_eq!(
        tokens,
        vec![
            rec(Op::Inc, 3),
            rec(Op::Right, 2),
            rec(Op::Dec, 2),
            rec(Op::Left, 1),
            rec(Op::End, 1),
        ]
    );
}

#[test]
fn tokenize_keeps_brackets_and_io_apart() {
    let tokens = tokenize("[[..,,]]");
    assert_eq!(
        tokens,
        vec![
            rec(Op::Open, 1),
            rec(Op::Open, 1),
            rec(Op::Output, 1),
            rec(Op::Output, 1),
            rec(Op::Input, 1),
            rec(Op::Input, 1),
            rec(Op::Close, 1),
            rec(Op::Close, 1),
            rec(Op::End, 1),
        ]
    );
}

#[test]
fn tokenize_drops_other_characters_before_merging() {
    let tokens = tokenize("+ a +\n+ # -");
    assert_eq!(tokens, vec![rec(Op::Inc, 3), rec(Op::Dec, 1), rec(Op::End, 1)]);
}

#[test]
fn tokenize_empty_source_is_end_alone() {
    assert_eq!(tokenize(""), vec![rec(Op::End, 1)]);
}

#[test]
fn run_of_n_gives_one_record_of_count_n() {
    let source = format!("-{}-", ">".repeat(1000));
    let tokens = tokenize(&source);
    assert_eq!(tokens, vec![rec(Op::Dec, 1), rec(Op::Right, 1000), rec(Op::Dec, 1), rec(Op::End, 1)]);
}

#[test]
fn jump_table_pairs_nested_brackets() {
    let tokens = tokenize("[+[-]>]");
    let jumps = find_matching_brackets(&tokens).unwrap();
    assert_eq!(jumps, vec![Some(6), None, Some(4), None, Some(2), None, Some(0), None]);
}

#[test]
fn jump_table_is_an_involution() {
    let program = parse("[[]+[-[]]]>[.]").unwrap();
    let jumps = &program.matching_brackets;
    for (k, j) in jumps.iter().enumerate() {
        if let Some(q) = j {
            assert_eq!(jumps[*q], Some(k));
        }
    }
}

#[test]
fn unmatched_close_is_rejected() {
    assert_eq!(find_matching_brackets(&tokenize("+]")).unwrap_err(), ParseError::UnmatchedClose);
    assert_eq!(parse("[]][").unwrap_err(), ParseError::UnmatchedClose);
}

#[test]
fn unbalanced_source_fails_to_parse() {
    assert_eq!(parse("[[]").unwrap_err(), ParseError::UnmatchedOpen);
}

#[test]
fn scenario_multiplication_prints_64() {
    let (machine, output) = run_source("++++++++[>++++++++<-]>.", &[]);
    assert_eq!(machine.tape[1], 64);
    assert_eq!(output, vec![64]);
}

#[test]
fn scenario_clear_loop_leaves_tape_zero() {
    let (machine, output) = run_source("+[-]", &[]);
    assert!(machine.tape.iter().all(|&c| c == 0));
    assert_eq!(machine.tape.len(), TAPE_LEN);
    assert!(output.is_empty());
}

#[test]
fn scenario_input_is_echoed() {
    let (_, output) = run_source(",.", &[65]);
    assert_eq!(output, vec![65]);
}

#[test]
fn input_at_end_leaves_cell_unchanged() {
    let (machine, output) = run_source("+++,.", &[]);
    assert_eq!(machine.tape[0], 3);
    assert_eq!(output, vec![3]);
}

#[test]
fn comment_only_program_changes_nothing() {
    let program = parse("this is a comment\n with no instructions").unwrap();
    assert_eq!(program.tokens, vec![rec(Op::End, 1)]);
    let mut machine = Machine::new();
    let output = machine.run(&program, &vec![], 100).unwrap();
    assert!(output.is_empty());
    assert!(machine.tape.iter().all(|&c| c == 0));
    assert_eq!(machine.ip, 0);
    assert_eq!(machine.dp, 0);
}

#[test]
fn copy_loop_moves_every_value() {
    for v in 0..=255usize {
        let source = format!("{}>+++<[->+<]", "+".repeat(v));
        let (machine, output) = run_source(&source, &[]);
        assert_eq!(machine.tape[0], 0);
        assert_eq!(machine.tape[1] as usize, (v + 3) % 256);
        assert!(output.is_empty());
    }
}

#[test]
fn increment_wraps_in_one_step() {
    let (machine, _) = run_source(&"+".repeat(257), &[]);
    assert_eq!(machine.tape[0], 1);
    let (machine, _) = run_source(&"+".repeat(256), &[]);
    assert_eq!(machine.tape[0], 0);
}

#[test]
fn decrement_wraps_in_one_step() {
    let (machine, _) = run_source("-", &[]);
    assert_eq!(machine.tape[0], 255);
    let (machine, _) = run_source(&"-".repeat(300), &[]);
    assert_eq!(machine.tape[0], 212);
}

#[test]
fn compressed_record_equals_single_steps() {
    let (merged, _) = run_source(&format!("{}>{}", "-".repeat(70), "+".repeat(300)), &[]);
    let (single, _) = run_source(&format!("{}>{}", "-.".repeat(70), "+.".repeat(300)), &[]);
    assert_eq!(merged.tape[0], single.tape[0]);
    assert_eq!(merged.tape[1], single.tape[1]);
    assert_eq!(merged.dp, single.dp);
}

#[test]
fn moving_left_of_the_tape_fails() {
    let program = parse("<").unwrap();
    let mut machine = Machine::new();
    assert_eq!(machine.run(&program, &vec![], 10), Err(ExecError::TapeOutOfBounds));
}

#[test]
fn moving_right_of_the_tape_fails() {
    let program = parse(&">".repeat(TAPE_LEN)).unwrap();
    let mut machine = Machine::new();
    assert_eq!(machine.run(&program, &vec![], 10), Err(ExecError::TapeOutOfBounds));
    let (machine, _) = run_source(&">".repeat(TAPE_LEN - 1), &[]);
    assert_eq!(machine.dp, TAPE_LEN - 1);
}

#[test]
fn fuel_bounds_a_run() {
    let program = parse("+[]").unwrap();
    let mut machine = Machine::new();
    let output = machine.run(&program, &vec![], 50).unwrap();
    assert!(output.is_empty());
    assert!(!machine.halted(&program));
}

#[test]
fn step_reports_output_and_input() {
    let program: Program = parse("+.,").unwrap();
    let mut machine = Machine::new();
    assert_eq!(machine.step(&program, None), Ok(None));
    assert!(!machine.wants_input(&program));
    assert_eq!(machine.step(&program, None), Ok(Some(1)));
    assert!(machine.wants_input(&program));
    assert_eq!(machine.step(&program, Some(9)), Ok(None));
    assert_eq!(machine.tape[0], 9);
    assert!(machine.halted(&program));
}
