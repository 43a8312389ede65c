use brainfuck_interpreter::brackets::resolve;
use brainfuck_interpreter::{Brainfuck, Error, Instruction};

fn resolved(source: &str) -> Result<Vec<Instruction>, Error> {
    resolve(&Instruction::from_source(source))
}

#[test]
fn a_single_loop_is_linked_both_ways() {
    assert_eq!(
        resolved("[-]"),
        Ok(vec![Instruction::Open(2), Instruction::Dec(1), Instruction::Close(0)])
    );
}

#[test]
fn nested_loops_are_linked_to_their_own_counterparts() {
    assert_eq!(
        resolved("[[]+[]]"),
        Ok(vec![
            Instruction::Open(6),
            Instruction::Open(2),
            Instruction::Close(1),
            Instruction::Inc(1),
            Instruction::Open(5),
            Instruction::Close(4),
            Instruction::Close(0),
        ])
    );
}

#[test]
fn targets_point_back_at_each_other() {
    let program = resolved("+[>[-]<[->+<]>.]<[[[]]]").unwrap();
    for (i, ins) in program.iter().enumerate() {
        match *ins {
            Instruction::Open(target) => {
                assert!(i < target);
                assert_eq!(program[target], Instruction::Close(i));
            }
            Instruction::Close(target) => {
                assert!(target < i);
                assert_eq!(program[target], Instruction::Open(i));
            }
            _ => {}
        }
    }
}

#[test]
fn stale_targets_are_overwritten() {
    assert_eq!(
        resolve(&vec![Instruction::Open(9), Instruction::Close(7)]),
        Ok(vec![Instruction::Open(1), Instruction::Close(0)])
    );
}

#[test]
fn a_program_without_brackets_is_unchanged() {
    let program = vec![Instruction::Inc(3), Instruction::Dot, Instruction::Comma];
    assert_eq!(resolve(&program), Ok(program));
    assert_eq!(resolve(&vec![]), Ok(vec![]));
}

#[test]
fn a_single_open_is_unbalanced() {
    assert_eq!(resolved("["), Err(Error::UnbalancedBrackets { position: 0 }));
}

#[test]
fn a_single_close_is_unbalanced() {
    assert_eq!(resolved("]"), Err(Error::UnbalancedBrackets { position: 0 }));
}

#[test]
fn the_first_stray_close_is_reported() {
    assert_eq!(resolved("+[]]+]["), Err(Error::UnbalancedBrackets { position: 3 }));
    assert_eq!(resolved("]["), Err(Error::UnbalancedBrackets { position: 0 }));
}

#[test]
fn the_last_open_that_is_never_closed_is_reported() {
    assert_eq!(resolved("[[]"), Err(Error::UnbalancedBrackets { position: 0 }));
    assert_eq!(resolved("+[[+"), Err(Error::UnbalancedBrackets { position: 2 }));
    assert_eq!(resolved("[][+[]"), Err(Error::UnbalancedBrackets { position: 2 }));
}

#[test]
fn an_unbalanced_program_is_refused_and_left_as_it_was() {
    let mut machine = Brainfuck::new(Instruction::from_source("["));
    assert_eq!(
        machine.set_matching_paren(),
        Err(Error::UnbalancedBrackets { position: 0 })
    );
    assert_eq!(machine.instructions(), &vec![Instruction::Open(0)]);
    assert_eq!(machine.ins_ptr(), 0);

    let mut machine = Brainfuck::new(Instruction::from_source("[]+]"));
    assert_eq!(
        machine.set_matching_paren(),
        Err(Error::UnbalancedBrackets { position: 3 })
    );
    assert_eq!(
        machine.instructions(),
        &vec![
            Instruction::Open(0),
            Instruction::Close(0),
            Instruction::Inc(1),
            Instruction::Close(0),
        ]
    );
}

#[test]
fn set_matching_paren_links_the_machine_s_program() {
    let mut machine = Brainfuck::new(Instruction::from_source("+[-]"));
    assert_eq!(machine.set_matching_paren(), Ok(()));
    assert_eq!(
        machine.instructions(),
        &vec![
            Instruction::Inc(1),
            Instruction::Open(3),
            Instruction::Dec(1),
            Instruction::Close(1),
        ]
    );
}
