//! Instructions of the tape machine and the lexer that reads them from text.

use vstd::prelude::*;

verus! {

/// One instruction of the tape machine.
///
/// The cell and pointer operations carry a repeat count; the loop brackets
/// carry the index of their counterpart once the program has been resolved.
#[derive(Clone, Copy, Debug, PartialEq, Eq, Structural)]
pub enum Instruction {
    /// Add the count to the current cell, modulo 256.
    Inc(usize),
    /// Subtract the count from the current cell, modulo 256.
    Dec(usize),
    /// Move the cell pointer right by the count.
    Right(usize),
    /// Move the cell pointer left by the count.
    Left(usize),
    /// Start of a loop; holds the index of the matching `Close`.
    Open(usize),
    /// End of a loop; holds the index of the matching `Open`.
    Close(usize),
    /// Write the current cell to the output stream.
    Dot,
    /// Read one byte of the input stream into the current cell.
    Comma,
}

/// The instruction a single character stands for, if any.
pub open spec fn lex_char(c: char) -> Option<Instruction> {
    if c == '+' {
        Some(Instruction::Inc(1))
    } else if c == '-' {
        Some(Instruction::Dec(1))
    } else if c == '>' {
        Some(Instruction::Right(1))
    } else if c == '<' {
        Some(Instruction::Left(1))
    } else if c == '[' {
        Some(Instruction::Open(0))
    } else if c == ']' {
        Some(Instruction::Close(0))
    } else if c == '.' {
        Some(Instruction::Dot)
    } else if c == ',' {
        Some(Instruction::Comma)
    } else {
        None
    }
}

/// The instructions of a text: those of its characters, in order, with every
/// character that stands for no instruction left out.
pub open spec fn lex(text: Seq<char>) -> Seq<Instruction>
    decreases text.len(),
{
    if text.len() == 0 {
        Seq::empty()
    } else {
        match lex_char(text.last()) {
            Some(ins) => lex(text.drop_last()).push(ins),
            None => lex(text.drop_last()),
        }
    }
}

/// A text without a single instruction character holds no instruction.
pub proof fn lemma_lex_of_comments(text: Seq<char>)
    requires
        forall|i: int| 0 <= i < text.len() ==> lex_char(#[trigger] text[i]) is None,
    ensures
        lex(text) == Seq::<Instruction>::empty(),
    decreases text.len(),
{
    if text.len() > 0 {
        lemma_lex_of_comments(text.drop_last());
    }
}

impl Instruction {
    /// Reads one character.
    pub fn get_instruction(c: char) -> (r: Option<Instruction>)
        ensures
            r == lex_char(c),
    {
        match c {
            '+' => Some(Instruction::Inc(1)),
            '-' => Some(Instruction::Dec(1)),
            '>' => Some(Instruction::Right(1)),
            '<' => Some(Instruction::Left(1)),
            '[' => Some(Instruction::Open(0)),
            ']' => Some(Instruction::Close(0)),
            '.' => Some(Instruction::Dot),
            ',' => Some(Instruction::Comma),
            _ => None,
        }
    }

    /// Reads a whole source text, skipping every character that is no
    /// instruction.
    pub fn from_source(source: &str) -> (program: Vec<Instruction>)
        ensures
            program@ == lex(source@),
    {
        let mut program: Vec<Instruction> = Vec::new();
        proof {
            vstd::string::axiom_spec_iter(source);
        }
        for c in it: source.chars()
            invariant
                it.seq() == source@,
                program@ == lex(source@.take(it.index())),
        {
            proof {
                assert(source@.take(it.index() + 1).drop_last() =~= source@.take(it.index()));
            }
            if let Some(ins) = Instruction::get_instruction(c) {
                program.push(ins);
            }
        }
        proof {
            assert(source@.take(source@.len() as int) =~= source@);
        }
        program
    }
}

} // verus!
