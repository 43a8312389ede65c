use brainfuck_interpreter::optimizer::fold_program;
use brainfuck_interpreter::{Brainfuck, Instruction};

fn folded(source: &str) -> Vec<Instruction> {
    fold_program(&Instruction::from_source(source))
}

#[test]
fn runs_are_summed() {
    assert_eq!(
        folded("+++--->>>><<"),
        vec![
            Instruction::Inc(3),
            Instruction::Dec(3),
            Instruction::Right(4),
            Instruction::Left(2),
        ]
    );
}

#[test]
fn brackets_and_io_are_never_merged() {
    assert_eq!(
        folded("[[]]..,,"),
        vec![
            Instruction::Open(0),
            Instruction::Open(0),
            Instruction::Close(0),
            Instruction::Close(0),
            Instruction::Dot,
            Instruction::Dot,
            Instruction::Comma,
            Instruction::Comma,
        ]
    );
}

#[test]
fn a_run_ends_where_the_kind_changes() {
    assert_eq!(
        folded("++.++[--]-"),
        vec![
            Instruction::Inc(2),
            Instruction::Dot,
            Instruction::Inc(2),
            Instruction::Open(0),
            Instruction::Dec(2),
            Instruction::Close(0),
            Instruction::Dec(1),
        ]
    );
}

#[test]
fn comments_do_not_break_a_run() {
    assert_eq!(folded("+ + x +"), vec![Instruction::Inc(3)]);
}

#[test]
fn empty_and_single_programs_pass_through() {
    assert_eq!(fold_program(&vec![]), vec![]);
    assert_eq!(fold_program(&vec![Instruction::Inc(7)]), vec![Instruction::Inc(7)]);
    assert_eq!(fold_program(&vec![Instruction::Dot]), vec![Instruction::Dot]);
}

#[test]
fn counted_instructions_are_summed() {
    assert_eq!(
        fold_program(&vec![Instruction::Inc(100), Instruction::Inc(156), Instruction::Right(5), Instruction::Right(0)]),
        vec![Instruction::Inc(256), Instruction::Right(5)]
    );
}

#[test]
fn folding_twice_is_folding_once() {
    for source in ["", "+", "+++[->++<]>.", "++--++--", ",[.,]", ">>><<<>>><<<"] {
        let once = folded(source);
        assert_eq!(fold_program(&once), once);
    }
}

#[test]
fn a_sum_that_cannot_be_held_is_split() {
    let program = vec![
        Instruction::Inc(usize::MAX),
        Instruction::Inc(1),
        Instruction::Inc(2),
        Instruction::Inc(usize::MAX - 2),
    ];
    let once = fold_program(&program);
    assert_eq!(
        once,
        vec![Instruction::Inc(usize::MAX), Instruction::Inc(3), Instruction::Inc(usize::MAX - 2)]
    );
    assert_eq!(fold_program(&once), once);
}

#[test]
fn optimize_folds_the_machine_s_program_only() {
    let mut machine = Brainfuck::new(Instruction::from_source("+++>>."));
    machine.optimize();
    assert_eq!(
        machine.instructions(),
        &vec![Instruction::Inc(3), Instruction::Right(2), Instruction::Dot]
    );
    assert_eq!(machine.ins_ptr(), 0);
    assert_eq!(machine.mem_ptr(), 0);
    assert_eq!(machine.memory().len(), 30000);
    assert!(machine.memory().iter().all(|&cell| cell == 0));
    machine.optimize();
    assert_eq!(
        machine.instructions(),
        &vec![Instruction::Inc(3), Instruction::Right(2), Instruction::Dot]
    );
}
