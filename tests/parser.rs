use smpl_vm::{calculate_branches, lexify, parse, Instruction, Token};

fn tokens(text: &str) -> Vec<Token> {
    lexify(vec![text.to_string()])
}

fn instructions(text: &str) -> Vec<Instruction> {
    parse(tokens(text)).unwrap()
}

#[test]
fn parse_folds_runs_of_the_same_symbol() {
    assert_eq!(
        instructions("+++>>-<"),
        vec![
            Instruction::Increment(3, Token::Increment(0, 0)),
            Instruction::MoveRight(2, Token::MoveRight(0, 3)),
            Instruction::Decrement(1, Token::Decrement(0, 5)),
            Instruction::MoveLeft(1, Token::MoveLeft(0, 6)),
        ]
    );
}

#[test]
fn parse_does_not_fold_across_other_symbols() {
    assert_eq!(
        instructions("++.++"),
        vec![
            Instruction::Increment(2, Token::Increment(0, 0)),
            Instruction::Output(Token::Output(0, 2)),
            Instruction::Increment(2, Token::Increment(0, 3)),
        ]
    );
}

#[test]
fn parse_never_folds_io_branch_and_jump_symbols() {
    assert_eq!(
        instructions("..,,[]**&&??"),
        vec![
            Instruction::Output(Token::Output(0, 0)),
            Instruction::Output(Token::Output(0, 1)),
            Instruction::Input(Token::Input(0, 2)),
            Instruction::Input(Token::Input(0, 3)),
            Instruction::Branch(Token::Branch(0, 4)),
            Instruction::Return(Token::Return(0, 5)),
            Instruction::Jump(Token::Jump(0, 6)),
            Instruction::Jump(Token::Jump(0, 7)),
            Instruction::Restore(Token::Restore(0, 8)),
            Instruction::Restore(Token::Restore(0, 9)),
            Instruction::Alloc(Token::Alloc(0, 10)),
            Instruction::Alloc(Token::Alloc(0, 11)),
        ]
    );
}

#[test]
fn parse_folds_a_run_across_lines() {
    let toks = lexify(vec!["++".to_string(), "+".to_string()]);
    assert_eq!(parse(toks).unwrap(), vec![Instruction::Increment(3, Token::Increment(0, 0))]);
}

#[test]
fn parse_folds_a_long_run_into_its_exact_length() {
    let text = ">".repeat(1000);
    assert_eq!(instructions(&text), vec![Instruction::MoveRight(1000, Token::MoveRight(0, 0))]);
}

#[test]
fn parse_rejects_the_first_nop() {
    let toks = vec![Token::Increment(0, 0), Token::Nop(2, 13), Token::Nop(3, 1)];
    let err = parse(toks).unwrap_err();
    assert_eq!(err, ("Unexpected token Nop(2, 13) encountered".to_string(), 2, 13));
}

#[test]
fn parse_of_nothing_is_empty() {
    assert!(parse(Vec::new()).unwrap().is_empty());
}

#[test]
fn calculate_branches_pairs_nested_and_sibling_brackets() {
    let instr = instructions("[[-]+][]");
    let table = calculate_branches(&instr).unwrap();
    assert_eq!(table.len(), 3);
    assert_eq!(table.get_by_left(&0), Some(&5));
    assert_eq!(table.get_by_left(&1), Some(&3));
    assert_eq!(table.get_by_left(&6), Some(&7));
    assert_eq!(table.get_by_right(&5), Some(&0));
}

#[test]
fn calculate_branches_reports_an_unmatched_branch() {
    let instr = instructions("+[[]");
    let err = calculate_branches(&instr).unwrap_err();
    assert_eq!(err, ("Branch ('[') has no return (']')".to_string(), 0, 1));
}

#[test]
fn calculate_branches_reports_an_unmatched_return() {
    let instr = instructions("[]]");
    let err = calculate_branches(&instr).unwrap_err();
    assert_eq!(err, ("Return (']') has no branch ('[')".to_string(), 0, 2));
}

#[test]
fn calculate_branches_reports_the_first_bad_position() {
    let instr = instructions("][");
    let err = calculate_branches(&instr).unwrap_err();
    assert_eq!(err, ("Return (']') has no branch ('[')".to_string(), 0, 0));
}

#[test]
fn calculate_branches_of_a_program_without_brackets_is_empty() {
    let instr = instructions("+>.");
    assert_eq!(calculate_branches(&instr).unwrap().len(), 0);
}
