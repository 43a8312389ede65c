//! Run-length folding: neighbouring cell or pointer operations of the same
//! kind become one instruction that carries the summed count.

use crate::instruction::Instruction;
use vstd::prelude::*;

verus! {

/// The single instruction that does the work of `a` followed by `b`, where
/// there is one: both are the same cell or pointer operation and the summed
/// count can still be held. Brackets and I/O never merge.
pub open spec fn merge(a: Instruction, b: Instruction) -> Option<Instruction> {
    match (a, b) {
        (Instruction::Inc(m), Instruction::Inc(n)) => if m + n <= usize::MAX {
            Some(Instruction::Inc((m + n) as usize))
        } else {
            None
        },
        (Instruction::Dec(m), Instruction::Dec(n)) => if m + n <= usize::MAX {
            Some(Instruction::Dec((m + n) as usize))
        } else {
            None
        },
        (Instruction::Right(m), Instruction::Right(n)) => if m + n <= usize::MAX {
            Some(Instruction::Right((m + n) as usize))
        } else {
            None
        },
        (Instruction::Left(m), Instruction::Left(n)) => if m + n <= usize::MAX {
            Some(Instruction::Left((m + n) as usize))
        } else {
            None
        },
        _ => None,
    }
}

/// The folded form of a program: reading left to right, each instruction is
/// merged into the one before it where `merge` allows, and appended otherwise.
pub open spec fn fold(program: Seq<Instruction>) -> Seq<Instruction>
    decreases program.len(),
{
    if program.len() == 0 {
        Seq::empty()
    } else {
        let before = fold(program.drop_last());
        if before.len() > 0 && merge(before.last(), program.last()) is Some {
            before.drop_last().push(merge(before.last(), program.last())->0)
        } else {
            before.push(program.last())
        }
    }
}

/// No two neighbours of the program can be merged.
pub open spec fn is_folded(program: Seq<Instruction>) -> bool {
    forall|i: int|
        0 <= i && i + 1 < program.len() ==> merge(#[trigger] program[i], program[i + 1]) is None
}

/// How many primitive operations an instruction stands for.
pub open spec fn repeat_count(ins: Instruction) -> nat {
    match ins {
        Instruction::Inc(n) | Instruction::Dec(n) | Instruction::Right(n) | Instruction::Left(
            n,
        ) => n as nat,
        _ => 1,
    }
}

/// The primitive operation that an instruction repeats.
pub open spec fn primitive(ins: Instruction) -> Instruction {
    match ins {
        Instruction::Inc(_) => Instruction::Inc(1),
        Instruction::Dec(_) => Instruction::Dec(1),
        Instruction::Right(_) => Instruction::Right(1),
        Instruction::Left(_) => Instruction::Left(1),
        other => other,
    }
}

/// The program written out with count 1 throughout: every counted
/// instruction is replaced by as many primitive ones.
pub open spec fn unroll(program: Seq<Instruction>) -> Seq<Instruction>
    decreases program.len(),
{
    if program.len() == 0 {
        Seq::empty()
    } else {
        unroll(program.drop_last()) + Seq::new(
            repeat_count(program.last()),
            |i: int| primitive(program.last()),
        )
    }
}

/// Folding leaves nothing that could be merged further.
pub proof fn lemma_fold_is_folded(program: Seq<Instruction>)
    ensures
        is_folded(fold(program)),
    decreases program.len(),
{
    if program.len() > 0 {
        lemma_fold_is_folded(program.drop_last());
    }
}

/// A program in which nothing can be merged is its own folded form. This
/// covers every program of at most one instruction.
pub proof fn lemma_fold_of_folded(program: Seq<Instruction>)
    requires
        is_folded(program),
    ensures
        fold(program) == program,
    decreases program.len(),
{
    if program.len() > 0 {
        let front = program.drop_last();
        lemma_fold_of_folded(front);
        if front.len() > 0 {
            assert(merge(program[front.len() - 1], program[front.len() - 1 + 1]) is None);
        }
        assert(front.push(program.last()) =~= program);
    }
}

/// Folding is idempotent: folding a folded program changes nothing.
pub proof fn lemma_fold_idempotent(program: Seq<Instruction>)
    ensures
        fold(fold(program)) == fold(program),
{
    lemma_fold_is_folded(program);
    lemma_fold_of_folded(fold(program));
}

/// Folding keeps the stream of primitive operations: the folded program
/// unrolls to what the unfolded one unrolls to.
pub proof fn lemma_fold_preserves_unrolling(program: Seq<Instruction>)
    ensures
        unroll(fold(program)) == unroll(program),
    decreases program.len(),
{
    if program.len() > 0 {
        let before = fold(program.drop_last());
        let last = program.last();
        lemma_fold_preserves_unrolling(program.drop_last());
        if before.len() > 0 && merge(before.last(), last) is Some {
            let merged = merge(before.last(), last)->0;
            let folded = before.drop_last().push(merged);
            assert(folded.drop_last() =~= before.drop_last());
            assert(Seq::new(repeat_count(merged), |i: int| primitive(merged)) =~= Seq::new(
                repeat_count(before.last()),
                |i: int| primitive(before.last()),
            ) + Seq::new(repeat_count(last), |i: int| primitive(last)));
            assert(unroll(folded) =~= unroll(before) + Seq::new(
                repeat_count(last),
                |i: int| primitive(last),
            ));
        } else {
            assert(before.push(last).drop_last() =~= before);
        }
    }
}

/// Merges two instructions where `merge` allows.
fn merged(a: Instruction, b: Instruction) -> (r: Option<Instruction>)
    ensures
        r == merge(a, b),
{
    match (a, b) {
        (Instruction::Inc(m), Instruction::Inc(n)) => match m.checked_add(n) {
            Some(sum) => Some(Instruction::Inc(sum)),
            None => None,
        },
        (Instruction::Dec(m), Instruction::Dec(n)) => match m.checked_add(n) {
            Some(sum) => Some(Instruction::Dec(sum)),
            None => None,
        },
        (Instruction::Right(m), Instruction::Right(n)) => match m.checked_add(n) {
            Some(sum) => Some(Instruction::Right(sum)),
            None => None,
        },
        (Instruction::Left(m), Instruction::Left(n)) => match m.checked_add(n) {
            Some(sum) => Some(Instruction::Left(sum)),
            None => None,
        },
        _ => None,
    }
}

/// Folds a program in one pass from left to right.
pub fn fold_program(program: &Vec<Instruction>) -> (folded: Vec<Instruction>)
    ensures
        folded@ == fold(program@),
        is_folded(folded@),
        unroll(folded@) == unroll(program@),
        program@.len() <= 1 ==> folded@ == program@,
{
    let mut folded: Vec<Instruction> = Vec::new();
    let mut i: usize = 0;
    while i < program.len()
        invariant
            i <= program.len(),
            folded@ == fold(program@.take(i as int)),
        decreases program.len() - i,
    {
        let ins = program[i];
        proof {
            assert(program@.take(i + 1).drop_last() =~= program@.take(i as int));
        }
        let pending = if folded.len() > 0 {
            merged(folded[folded.len() - 1], ins)
        } else {
            None
        };
        match pending {
            Some(sum) => {
                let end = folded.len() - 1;
                folded.set(end, sum);
                assert(folded@ =~= fold(program@.take(i as int)).drop_last().push(sum));
            },
            None => {
                folded.push(ins);
            },
        }
        i += 1;
    }
    proof {
        assert(program@.take(program@.len() as int) =~= program@);
        lemma_fold_is_folded(program@);
        lemma_fold_preserves_unrolling(program@);
        if program@.len() <= 1 {
            lemma_fold_of_folded(program@);
        }
    }
    folded
}

} // verus!
