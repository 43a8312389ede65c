use brainfuck_interpreter::Instruction;

#[test]
fn each_command_character_is_read() {
    assert_eq!(Instruction::get_instruction('+'), Some(Instruction::Inc(1)));
    assert_eq!(Instruction::get_instruction('-'), Some(Instruction::Dec(1)));
    assert_eq!(Instruction::get_instruction('>'), Some(Instruction::Right(1)));
    assert_eq!(Instruction::get_instruction('<'), Some(Instruction::Left(1)));
    assert_eq!(Instruction::get_instruction('['), Some(Instruction::Open(0)));
    assert_eq!(Instruction::get_instruction(']'), Some(Instruction::Close(0)));
    assert_eq!(Instruction::get_instruction('.'), Some(Instruction::Dot));
    assert_eq!(Instruction::get_instruction(','), Some(Instruction::Comma));
}

#[test]
fn other_characters_are_no_instruction() {
    for c in ['a', ' ', '\n', '0', '#', '(', ')', '{', '}', 'é', '→', '\0'] {
        assert_eq!(Instruction::get_instruction(c), None);
    }
}

#[test]
fn source_is_read_in_order() {
    assert_eq!(
        Instruction::from_source("+-><[].,"),
        vec![
            Instruction::Inc(1),
            Instruction::Dec(1),
            Instruction::Right(1),
            Instruction::Left(1),
            Instruction::Open(0),
            Instruction::Close(0),
            Instruction::Dot,
            Instruction::Comma,
        ]
    );
}

#[test]
fn comments_are_skipped() {
    assert_eq!(
        Instruction::from_source("add one: + then print\n. (done) é→"),
        vec![Instruction::Inc(1), Instruction::Dot]
    );
}

#[test]
fn empty_source_has_no_instructions() {
    assert_eq!(Instruction::from_source(""), vec![]);
}

#[test]
fn all_comment_source_has_no_instructions() {
    assert_eq!(Instruction::from_source("nothing to see here\n\t!"), vec![]);
}

#[test]
fn repeated_characters_are_not_merged_by_the_lexer() {
    assert_eq!(
        Instruction::from_source("+++"),
        vec![Instruction::Inc(1), Instruction::Inc(1), Instruction::Inc(1)]
    );
}
