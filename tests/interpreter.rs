use sac::interpreter::{Effect, Interpreter, RunError, TOTAL_MEMORY_SIZE};
use sac::ir::IRInstruction;
use sac::jumps::BracketError;
use sac::lexer::{Lexer, EOF};

/// Loads `code`, resolves its loops and runs it with `input` on standard input.
fn run_with(code: &str, input: &[u8]) -> (Interpreter, Result<Vec<u8>, RunError>) {
    let mut interpreter = Interpreter::new();
    interpreter.load_program(code);
    interpreter.precompute_jumps().expect("balanced program");
    let mut output = Vec::new();
    let mut pending = input.iter();
    loop {
        match interpreter.step() {
            Ok(Effect::Halted) => return (interpreter, Ok(output)),
            Ok(Effect::Continue) => {}
            Ok(Effect::Output(b)) => output.push(b),
            Ok(Effect::Input) => {
                let b = *pending.next().expect("input exhausted");
                assert!(interpreter.feed(b));
            }
            Err(e) => return (interpreter, Err(e)),
        }
    }
}

fn program_of(code: &str) -> Vec<IRInstruction> {
    let mut interpreter = Interpreter::new();
    interpreter.load_program(code);
    (0..interpreter.instruction_count())
        .map(|i| interpreter.instruction(i).unwrap())
        .collect()
}

#[test]
fn read_then_increment_then_print() {
    let (_, out) = run_with(",+.", &[65]);
    assert_eq!(out.unwrap(), b"B".to_vec());
}

#[test]
fn nested_multiplication_loop() {
    let (_, out) = run_with("++++++++[>++++++++<-]>.", &[]);
    assert_eq!(out.unwrap(), vec![64u8]);
}

#[test]
fn unmatched_close_is_rejected() {
    let mut interpreter = Interpreter::new();
    interpreter.load_program("]");
    assert_eq!(interpreter.precompute_jumps(), Err(BracketError::UnmatchedClose));
    assert_eq!(interpreter.jump_count(), 0);
}

#[test]
fn unmatched_open_is_rejected() {
    let mut interpreter = Interpreter::new();
    interpreter.load_program("+[");
    assert_eq!(interpreter.precompute_jumps(), Err(BracketError::UnmatchedOpen));
    assert_eq!(interpreter.jump_count(), 0);
}

#[test]
fn long_run_is_split_at_the_bound() {
    let code = "+".repeat(300) + ".";
    assert_eq!(
        program_of(&code),
        vec![
            IRInstruction::IncrementByte(255),
            IRInstruction::IncrementByte(45),
            IRInstruction::PrintByteAsChar,
        ]
    );
    let (interpreter, out) = run_with(&code, &[]);
    assert_eq!(out.unwrap(), vec![44u8]);
    assert_eq!(interpreter.cell(0), Some(44));
}

#[test]
fn hello_world() {
    let code = "++++++++[>++++[>++>+++>+++>+<<<<-]>+>+>->>+[<]<-]>>.>---.+++++++..+++.>>.<-.<.+++.------.--------.>>+.>++.";
    let (_, out) = run_with(code, &[]);
    assert_eq!(out.unwrap(), b"Hello World!\n".to_vec());
}

#[test]
fn comments_do_not_change_the_program() {
    let plain = "++[>+<-]>.";
    let commented = "add two: + +\n loop [ move > inc + back < dec - ] show > . done";
    assert_eq!(program_of(plain), program_of(commented));
    let (a, out_a) = run_with(plain, &[]);
    let (b, out_b) = run_with(commented, &[]);
    assert_eq!(out_a.unwrap(), out_b.unwrap());
    assert_eq!(a.data_pointer(), b.data_pointer());
    assert_eq!(a.cell(0), b.cell(0));
    assert_eq!(a.cell(1), b.cell(1));
}

#[test]
fn runs_fold_into_counts() {
    assert_eq!(
        program_of(">>><<++---.,[]"),
        vec![
            IRInstruction::IncrementPointer(3),
            IRInstruction::DecrementPointer(2),
            IRInstruction::IncrementByte(2),
            IRInstruction::DecrementByte(3),
            IRInstruction::PrintByteAsChar,
            IRInstruction::ReadInputToByte,
            IRInstruction::JumpIfZero,
            IRInstruction::JumpIfNotZero,
        ]
    );
}

#[test]
fn folded_run_matches_single_steps() {
    let (folded, _) = run_with("+++++>>>", &[]);
    let (single, _) = run_with("+ + + + + > > >", &[]);
    assert_eq!(folded.cell(0), Some(5));
    assert_eq!(single.cell(0), Some(5));
    assert_eq!(folded.data_pointer(), 3);
    assert_eq!(single.data_pointer(), 3);
}

#[test]
fn run_of_maximal_length_is_one_instruction() {
    let code = "-".repeat(255);
    assert_eq!(program_of(&code), vec![IRInstruction::DecrementByte(255)]);
    let (interpreter, _) = run_with(&code, &[]);
    assert_eq!(interpreter.cell(0), Some(1));
}

#[test]
fn jump_map_has_two_entries_per_loop() {
    let mut interpreter = Interpreter::new();
    interpreter.load_program("[[]][.]");
    assert_eq!(interpreter.precompute_jumps(), Ok(()));
    assert_eq!(interpreter.jump_count(), 6);
    assert_eq!(interpreter.jump_partner(0), Some(3));
    assert_eq!(interpreter.jump_partner(3), Some(0));
    assert_eq!(interpreter.jump_partner(1), Some(2));
    assert_eq!(interpreter.jump_partner(2), Some(1));
    assert_eq!(interpreter.jump_partner(4), Some(6));
    assert_eq!(interpreter.jump_partner(6), Some(4));
    assert_eq!(interpreter.jump_partner(5), None);
}

#[test]
fn empty_program_has_no_jumps_and_halts() {
    let (interpreter, out) = run_with("no instructions here", &[]);
    assert_eq!(out.unwrap(), Vec::<u8>::new());
    assert_eq!(interpreter.instruction_count(), 0);
    assert_eq!(interpreter.jump_count(), 0);
}

#[test]
fn increment_wraps_to_zero() {
    let (interpreter, _) = run_with(&"+".repeat(256), &[]);
    assert_eq!(interpreter.cell(0), Some(0));
    let (interpreter, _) = run_with(",+", &[255]);
    assert_eq!(interpreter.cell(0), Some(0));
}

#[test]
fn decrement_wraps_to_max() {
    let (interpreter, out) = run_with("-.", &[]);
    assert_eq!(interpreter.cell(0), Some(255));
    assert_eq!(out.unwrap(), vec![255u8]);
}

#[test]
fn reads_and_prints_interleave_in_order() {
    let mut interpreter = Interpreter::new();
    interpreter.load_program(",.,.");
    interpreter.precompute_jumps().unwrap();
    assert_eq!(interpreter.step(), Ok(Effect::Input));
    assert_eq!(interpreter.step(), Ok(Effect::Input));
    assert!(interpreter.feed(7));
    assert_eq!(interpreter.step(), Ok(Effect::Output(7)));
    assert_eq!(interpreter.step(), Ok(Effect::Input));
    assert!(interpreter.feed(9));
    assert_eq!(interpreter.step(), Ok(Effect::Output(9)));
    assert_eq!(interpreter.step(), Ok(Effect::Halted));
    assert!(!interpreter.feed(1));
}

#[test]
fn feed_is_refused_off_a_read() {
    let mut interpreter = Interpreter::new();
    interpreter.load_program("+,");
    assert!(!interpreter.feed(3));
    assert_eq!(interpreter.cell(0), Some(0));
    assert_eq!(interpreter.step(), Ok(Effect::Continue));
    assert!(interpreter.feed(3));
    assert_eq!(interpreter.cell(0), Some(3));
}

#[test]
fn pointer_below_zero_is_out_of_bounds() {
    let (interpreter, out) = run_with("<", &[]);
    assert_eq!(out, Err(RunError::PointerOutOfBounds));
    assert_eq!(interpreter.data_pointer(), 0);
}

#[test]
fn pointer_past_the_tape_is_out_of_bounds() {
    let (interpreter, out) = run_with(&">".repeat(TOTAL_MEMORY_SIZE - 1), &[]);
    assert_eq!(out, Ok(vec![]));
    assert_eq!(interpreter.data_pointer(), TOTAL_MEMORY_SIZE - 1);
    let (_, out) = run_with(&">".repeat(TOTAL_MEMORY_SIZE), &[]);
    assert_eq!(out, Err(RunError::PointerOutOfBounds));
}

#[test]
fn jump_without_resolving_is_reported() {
    let mut interpreter = Interpreter::new();
    interpreter.load_program("[]");
    assert_eq!(interpreter.step(), Err(RunError::UnresolvedJump));
}

#[test]
fn tape_starts_zeroed() {
    let interpreter = Interpreter::new();
    assert_eq!(interpreter.cell(0), Some(0));
    assert_eq!(interpreter.cell(TOTAL_MEMORY_SIZE - 1), Some(0));
    assert_eq!(interpreter.cell(TOTAL_MEMORY_SIZE), None);
    assert_eq!(interpreter.data_pointer(), 0);
}

#[test]
fn lexer_skips_comments_and_ends_with_sentinel() {
    let mut lexer = Lexer::new();
    lexer.fill("a+ b\n[x]é.");
    assert_eq!(lexer.next(), '+');
    assert_eq!(lexer.next(), '[');
    assert_eq!(lexer.next(), ']');
    assert_eq!(lexer.next(), '.');
    assert_eq!(lexer.next(), EOF);
    assert_eq!(lexer.next(), EOF);
}

#[test]
fn lexer_fill_appends() {
    let mut lexer = Lexer::new();
    assert_eq!(lexer.next(), EOF);
    lexer.fill("-");
    lexer.fill("comment,");
    assert_eq!(lexer.next(), '-');
    assert_eq!(lexer.next(), ',');
    assert_eq!(lexer.next(), EOF);
}

#[test]
fn load_program_appends() {
    let mut interpreter = Interpreter::new();
    interpreter.load_program("++");
    interpreter.load_program("+.");
    assert_eq!(
        (0..interpreter.instruction_count()).map(|i| interpreter.instruction(i).unwrap()).collect::<Vec<_>>(),
        vec![
            IRInstruction::IncrementByte(2),
            IRInstruction::IncrementByte(1),
            IRInstruction::PrintByteAsChar,
        ]
    );
}

#[test]
fn comments_inside_a_run_do_not_split_it() {
    assert_eq!(program_of("+ x +\n+"), vec![IRInstruction::IncrementByte(3)]);
    assert_eq!(program_of("+ x +\n+"), program_of("+++"));
}

#[test]
fn run_between_other_instructions_folds_once() {
    assert_eq!(
        program_of(".>>>>+<<"),
        vec![
            IRInstruction::PrintByteAsChar,
            IRInstruction::IncrementPointer(4),
            IRInstruction::IncrementByte(1),
            IRInstruction::DecrementPointer(2),
        ]
    );
}

#[test]
fn alternating_program_echoes_input() {
    let mut interpreter = Interpreter::new();
    interpreter.load_program(",.,.,.");
    interpreter.precompute_jumps().unwrap();
    let mut events = Vec::new();
    let mut input = [3u8, 1, 4].iter();
    loop {
        match interpreter.step() {
            Ok(Effect::Halted) => break,
            Ok(Effect::Input) => {
                let b = *input.next().unwrap();
                events.push(('r', b));
                assert!(interpreter.feed(b));
            }
            Ok(Effect::Output(b)) => events.push(('w', b)),
            other => panic!("unexpected step result {:?}", other),
        }
    }
    assert_eq!(events, vec![('r', 3), ('w', 3), ('r', 1), ('w', 1), ('r', 4), ('w', 4)]);
}
