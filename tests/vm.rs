use smpl_vm::{lexify, Program, Status, Token, TAPE_LEN};

type Error = (String, usize, usize);

fn load(text: &str) -> Result<Program, Error> {
    let code: Vec<String> = text.lines().map(|l| l.to_string()).collect();
    Program::load(lexify(code))
}

/// Runs `program` to its end, feeding it `input` and collecting its output.
fn drive(program: &mut Program, input: &[u8]) -> (Result<(), Error>, Vec<u8>) {
    let mut output = Vec::new();
    let mut remaining = input.iter();
    loop {
        match program.step() {
            Ok(Status::Running) => {}
            Ok(Status::Halted) => return (Ok(()), output),
            Ok(Status::Output(b)) => {
                output.push(b);
                if let Err(e) = program.finish_output(Ok(())) {
                    return (Err(e), output);
                }
            }
            Ok(Status::Input) => {
                if let Err(e) = program.finish_input(Ok(remaining.next().copied())) {
                    return (Err(e), output);
                }
            }
            Err(e) => return (Err(e), output),
        }
    }
}

fn run(text: &str, input: &[u8]) -> (Program, Result<(), Error>, Vec<u8>) {
    let mut program = load(text).unwrap();
    let (result, output) = drive(&mut program, input);
    (program, result, output)
}

#[test]
fn transfer_loop_adds_cell_one_into_cell_zero() {
    let (program, result, output) = run("++>+++[-<+>]<.", &[]);
    assert_eq!(result, Ok(()));
    assert_eq!(output, vec![0x05]);
    assert_eq!(program.cell_at(0), Some(5));
    assert_eq!(program.cell_at(1), Some(0));
    assert_eq!(program.pointer(), 0);
}

#[test]
fn lone_branch_fails_to_load_at_its_position() {
    let err = load("[").err().unwrap();
    assert_eq!(err, ("Branch ('[') has no return (']')".to_string(), 0, 0));
}

#[test]
fn lone_return_fails_to_load_at_its_position() {
    let err = load("+\n ]").err().unwrap();
    assert_eq!(err, ("Return (']') has no branch ('[')".to_string(), 1, 1));
}

#[test]
fn lone_restore_fails_at_run_time() {
    let (program, result, output) = run("&", &[]);
    assert_eq!(result, Err(("Runtime error: no saved jumps.".to_string(), 0, 0)));
    assert!(output.is_empty());
    assert_eq!(program.position(), 0);
}

#[test]
fn loaded_program_starts_on_a_zeroed_tape() {
    let program = load("+").unwrap();
    assert_eq!(program.pointer(), 0);
    assert_eq!(program.position(), 0);
    assert_eq!(program.saved_jumps(), 0);
    assert_eq!(program.cell_at(0), Some(0));
    assert_eq!(program.cell_at(TAPE_LEN - 1), Some(0));
    assert_eq!(program.cell_at(TAPE_LEN), None);
    assert_eq!(program.instructions().len(), 1);
}

#[test]
fn empty_program_halts_at_once() {
    let mut program = load("").unwrap();
    assert_eq!(program.step(), Ok(Status::Halted));
    assert_eq!(program.step(), Ok(Status::Halted));
}

#[test]
fn increment_wraps_from_255_to_0() {
    let text = "+".repeat(255) + "." + "+.";
    let (_, result, output) = run(&text, &[]);
    assert_eq!(result, Ok(()));
    assert_eq!(output, vec![255, 0]);
}

#[test]
fn decrement_wraps_from_0_to_255() {
    let (_, result, output) = run("-.", &[]);
    assert_eq!(result, Ok(()));
    assert_eq!(output, vec![255]);
}

#[test]
fn folded_arithmetic_goes_round_more_than_once() {
    let text = "+".repeat(600) + "." + &"-".repeat(700) + ".";
    let (_, _, output) = run(&text, &[]);
    assert_eq!(output, vec![(600 % 256) as u8, ((600i64 - 700).rem_euclid(256)) as u8]);
}

#[test]
fn move_left_from_zero_wraps_to_the_last_cell() {
    let (program, result, _) = run("<", &[]);
    assert_eq!(result, Ok(()));
    assert_eq!(program.pointer(), TAPE_LEN - 1);
}

#[test]
fn move_right_past_the_end_wraps_to_the_start() {
    let text = "<".repeat(3) + &">".repeat(5);
    let (program, _, _) = run(&text, &[]);
    assert_eq!(program.pointer(), 2);
}

#[test]
fn moves_longer_than_the_tape_stay_on_it() {
    let text = ">".repeat(TAPE_LEN + 7);
    let (program, _, _) = run(&text, &[]);
    assert_eq!(program.pointer(), 7);
    let text = "<".repeat(2 * TAPE_LEN + 1);
    let (program, _, _) = run(&text, &[]);
    assert_eq!(program.pointer(), TAPE_LEN - 1);
}

#[test]
fn branch_on_zero_skips_its_body() {
    let (program, result, output) = run("[+.]+", &[]);
    assert_eq!(result, Ok(()));
    assert!(output.is_empty());
    assert_eq!(program.cell_at(0), Some(1));
}

#[test]
fn branch_step_lands_after_the_matching_return() {
    let mut program = load("[[+]]>").unwrap();
    assert_eq!(program.step(), Ok(Status::Running));
    assert_eq!(program.position(), 5);
}

#[test]
fn return_step_lands_after_the_matching_branch() {
    let mut program = load("++[-]").unwrap();
    assert_eq!(program.step(), Ok(Status::Running));
    assert_eq!(program.step(), Ok(Status::Running));
    assert_eq!(program.step(), Ok(Status::Running));
    assert_eq!(program.position(), 3);
    assert_eq!(program.step(), Ok(Status::Running));
    assert_eq!(program.position(), 2);
    assert_eq!(program.step(), Ok(Status::Running));
    assert_eq!(program.step(), Ok(Status::Running));
    assert_eq!(program.position(), 4);
}

#[test]
fn jumps_then_restores_bring_the_pointer_back() {
    let (program, result, _) = run(">>>+++++*>+*&&", &[]);
    assert_eq!(result, Ok(()));
    assert_eq!(program.pointer(), 3);
    assert_eq!(program.saved_jumps(), 0);
}

#[test]
fn jump_moves_the_pointer_to_the_cell_value() {
    let (program, result, _) = run("+++++*", &[]);
    assert_eq!(result, Ok(()));
    assert_eq!(program.pointer(), 5);
    assert_eq!(program.saved_jumps(), 1);
}

#[test]
fn restore_beyond_the_jumps_fails() {
    let (program, result, _) = run("*&\n &", &[]);
    assert_eq!(result, Err(("Runtime error: no saved jumps.".to_string(), 1, 1)));
    assert_eq!(program.position(), 2);
}

#[test]
fn alloc_finds_the_lowest_free_run_after_the_pointer() {
    // cells: [3, 0, 5, 0, 0, 0, ...]; three free cells start at 3
    let (program, result, output) = run("+++>>+++++<<?.", &[]);
    assert_eq!(result, Ok(()));
    assert_eq!(output, vec![3]);
    assert_eq!(program.cell_at(0), Some(3));
}

#[test]
fn alloc_of_a_run_that_fits_right_after_the_pointer() {
    let (_, result, output) = run(">+<++?.", &[]);
    assert_eq!(result, Ok(()));
    assert_eq!(output, vec![2]);
}

#[test]
fn alloc_of_zero_cells_gives_the_next_address() {
    let (_, result, output) = run(">>?.", &[]);
    assert_eq!(result, Ok(()));
    assert_eq!(output, vec![3]);
}

#[test]
fn alloc_stores_the_low_byte_of_the_address() {
    // pointer at 300, asking for one cell: the run starts at 301
    let text = ">".repeat(300) + "+?.";
    let (_, result, output) = run(&text, &[]);
    assert_eq!(result, Ok(()));
    assert_eq!(output, vec![(301 % 256) as u8]);
}

#[test]
fn alloc_without_room_fails_with_the_size() {
    let (program, result, _) = run("<-?", &[]);
    assert_eq!(
        result,
        Err(("Runtime error: insufficient memory to allocate 255 bytes.".to_string(), 0, 2))
    );
    assert_eq!(program.cell_at(TAPE_LEN - 1), Some(255));
}

#[test]
fn input_byte_goes_into_the_cell() {
    let (program, result, output) = run(",.>,+.", b"AB");
    assert_eq!(result, Ok(()));
    assert_eq!(output, vec![b'A', b'C']);
    assert_eq!(program.cell_at(1), Some(b'C'));
}

#[test]
fn end_of_input_is_an_error() {
    let (_, result, _) = run(",", &[]);
    assert_eq!(result, Err(("Runtime error reading input: end of input".to_string(), 0, 0)));
}

#[test]
fn read_failure_is_an_error_with_its_message() {
    let mut program = load("+\n,").unwrap();
    assert_eq!(program.step(), Ok(Status::Running));
    assert_eq!(program.step(), Ok(Status::Input));
    let err = program.finish_input(Err("broken pipe".to_string())).unwrap_err();
    assert_eq!(err, ("Runtime error reading input: broken pipe".to_string(), 1, 0));
    assert_eq!(program.position(), 1);
}

#[test]
fn flush_failure_is_an_error_with_its_message() {
    let mut program = load("+.").unwrap();
    assert_eq!(program.step(), Ok(Status::Running));
    assert_eq!(program.step(), Ok(Status::Output(1)));
    let err = program.finish_output(Err("disk full".to_string())).unwrap_err();
    assert_eq!(err, ("Runtime error flushing output: disk full".to_string(), 0, 1));
    assert_eq!(program.position(), 1);
    assert_eq!(program.finish_output(Ok(())), Ok(()));
    assert_eq!(program.position(), 2);
}

#[test]
fn finishing_io_that_is_not_waiting_changes_nothing() {
    let mut program = load("+").unwrap();
    assert_eq!(program.finish_output(Ok(())), Ok(()));
    assert_eq!(program.finish_input(Ok(Some(9))), Ok(()));
    assert_eq!(program.position(), 0);
    assert_eq!(program.cell_at(0), Some(0));
}

#[test]
fn hello_style_program_prints_its_bytes() {
    let (_, result, output) = run("++++++++[>++++++++<-]>+.+.", &[]);
    assert_eq!(result, Ok(()));
    assert_eq!(output, b"AB".to_vec());
}

#[test]
fn parse_error_comes_before_branch_errors() {
    let err = Program::load(vec![Token::Branch(0, 0), Token::Nop(0, 1)]).err().unwrap();
    assert_eq!(err, ("Unexpected token Nop(0, 1) encountered".to_string(), 0, 1));
}

#[test]
fn folded_run_matches_the_same_symbols_one_at_a_time() {
    let (folded, _, _) = run("<<<-----", &[]);
    assert_eq!(folded.instructions().len(), 2);
    let (single, _, output) = run("<.<.<.-.-.-.-.-", &[]);
    assert_eq!(single.instructions().len(), 15);
    assert_eq!(folded.pointer(), single.pointer());
    assert_eq!(folded.pointer(), TAPE_LEN - 3);
    assert_eq!(folded.cell_at(TAPE_LEN - 3), single.cell_at(TAPE_LEN - 3));
    assert_eq!(folded.cell_at(TAPE_LEN - 3), Some(251));
    assert_eq!(output, vec![0, 0, 0, 255, 254, 253, 252]);
}
