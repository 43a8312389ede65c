//! Bracket resolution: every loop bracket learns the index of its
//! counterpart, so that running a loop never has to search for it.

use crate::error::Error;
use crate::instruction::Instruction;
use vstd::prelude::*;

verus! {

/// The change of nesting depth that an instruction causes.
pub open spec fn bracket_step(ins: Instruction) -> int {
    match ins {
        Instruction::Open(_) => 1,
        Instruction::Close(_) => -1,
        _ => 0,
    }
}

/// The nesting depth after the first `n` instructions: opening brackets
/// minus closing brackets among them.
pub open spec fn depth(program: Seq<Instruction>, n: int) -> int
    decreases n,
{
    if n <= 0 {
        0
    } else {
        depth(program, n - 1) + bracket_step(program[n - 1])
    }
}

/// The brackets of the program are correctly nested: the depth never drops
/// below zero and is zero at the end.
pub open spec fn balanced(program: Seq<Instruction>) -> bool {
    &&& forall|k: int| 0 <= k <= program.len() ==> #[trigger] depth(program, k) >= 0
    &&& depth(program, program.len() as int) == 0
}

/// The brackets at `open` and `close` belong together: an opening bracket, a
/// closing bracket further right, and between them a span that is balanced
/// by itself.
pub open spec fn is_pair(program: Seq<Instruction>, open: int, close: int) -> bool {
    &&& 0 <= open < close < program.len()
    &&& program[open] is Open
    &&& program[close] is Close
    &&& balanced(program.subrange(open + 1, close))
}

/// If the instruction at `i` is a bracket, it holds the index of its
/// counterpart, and the counterpart points back.
pub open spec fn linked_at(program: Seq<Instruction>, i: int) -> bool {
    match program[i] {
        Instruction::Open(target) => {
            &&& is_pair(program, i, target as int)
            &&& program[target as int] matches Instruction::Close(back) && back == i
        },
        Instruction::Close(target) => {
            &&& is_pair(program, target as int, i)
            &&& program[target as int] matches Instruction::Open(back) && back == i
        },
        _ => true,
    }
}

/// Every bracket of the program holds the index of its counterpart.
pub open spec fn resolved(program: Seq<Instruction>) -> bool {
    forall|i: int| 0 <= i < program.len() ==> #[trigger] linked_at(program, i)
}

/// An instruction with its jump target, if it has one, set to zero.
pub open spec fn erase_target(ins: Instruction) -> Instruction {
    match ins {
        Instruction::Open(_) => Instruction::Open(0),
        Instruction::Close(_) => Instruction::Close(0),
        other => other,
    }
}

/// The two programs differ at most in the jump targets of their brackets.
pub open spec fn same_shape(a: Seq<Instruction>, b: Seq<Instruction>) -> bool {
    &&& a.len() == b.len()
    &&& forall|i: int|
        #![trigger a[i]]
        #![trigger b[i]]
        0 <= i < a.len() ==> erase_target(a[i]) == erase_target(b[i])
}

/// `position` holds the first closing bracket that has no opening bracket
/// left to close.
pub open spec fn stray_close(program: Seq<Instruction>, position: int) -> bool {
    &&& 0 <= position < program.len()
    &&& program[position] is Close
    &&& depth(program, position) == 0
    &&& forall|k: int| 0 <= k <= position ==> #[trigger] depth(program, k) >= 0
}

/// No closing bracket is stray, and `position` holds the last opening bracket
/// that is never closed.
pub open spec fn dangling_open(program: Seq<Instruction>, position: int) -> bool {
    &&& 0 <= position < program.len()
    &&& program[position] is Open
    &&& forall|k: int| 0 <= k <= program.len() ==> #[trigger] depth(program, k) >= 0
    &&& forall|k: int|
        position < k <= program.len() ==> #[trigger] depth(program, k) > depth(
            program,
            position,
        )
    &&& depth(program, program.len() as int) == depth(program, position) + 1
}

/// `position` is where an unbalanced program is reported to be at fault.
pub open spec fn bracket_fault(program: Seq<Instruction>, position: int) -> bool {
    stray_close(program, position) || dangling_open(program, position)
}

/// `is_pair` in terms of depths: the depth after `close` is back to what it
/// was before `open`, for the first time.
pub open spec fn encloses(program: Seq<Instruction>, open: int, close: int) -> bool {
    &&& 0 <= open < close < program.len()
    &&& program[open] is Open
    &&& program[close] is Close
    &&& depth(program, close + 1) == depth(program, open)
    &&& forall|k: int| open < k <= close ==> #[trigger] depth(program, k) > depth(program, open)
}

/// Jump targets play no part in the nesting depth.
pub proof fn lemma_depth_same_shape(a: Seq<Instruction>, b: Seq<Instruction>, n: int)
    requires
        same_shape(a, b),
        0 <= n <= a.len(),
    ensures
        depth(a, n) == depth(b, n),
    decreases n,
{
    if n > 0 {
        lemma_depth_same_shape(a, b, n - 1);
        assert(erase_target(a[n - 1]) == erase_target(b[n - 1]));
    }
}

/// Depths inside a span are the depths of the whole program, counted from
/// the start of the span.
pub proof fn lemma_depth_subrange(program: Seq<Instruction>, from: int, to: int, n: int)
    requires
        0 <= from <= to <= program.len(),
        0 <= n <= to - from,
    ensures
        depth(program.subrange(from, to), n) == depth(program, from + n) - depth(program, from),
    decreases n,
{
    if n > 0 {
        lemma_depth_subrange(program, from, to, n - 1);
        assert(program.subrange(from, to)[n - 1] == program[from + n - 1]);
    }
}

/// The two descriptions of a pair of brackets agree.
pub proof fn lemma_pair_encloses(program: Seq<Instruction>, open: int, close: int)
    ensures
        is_pair(program, open, close) <==> encloses(program, open, close),
{
    if 0 <= open < close < program.len() && program[open] is Open && program[close] is Close {
        let span = program.subrange(open + 1, close);
        assert(depth(program, open + 1) == depth(program, open) + 1);
        assert(depth(program, close + 1) == depth(program, close) - 1);
        lemma_depth_subrange(program, open + 1, close, close - open - 1);
        if is_pair(program, open, close) {
            assert forall|k: int| open < k <= close implies #[trigger] depth(program, k) > depth(
                program,
                open,
            ) by {
                lemma_depth_subrange(program, open + 1, close, k - open - 1);
                assert(depth(span, k - open - 1) >= 0);
            }
        }
        if encloses(program, open, close) {
            assert forall|k: int| 0 <= k <= span.len() implies #[trigger] depth(span, k) >= 0 by {
                lemma_depth_subrange(program, open + 1, close, k);
                assert(depth(program, open + 1 + k) > depth(program, open));
            }
            assert(depth(program, close) > depth(program, open));
        }
    }
}

/// A bracket has at most one counterpart.
pub proof fn lemma_pair_unique(
    program: Seq<Instruction>,
    open_a: int,
    close_a: int,
    open_b: int,
    close_b: int,
)
    requires
        is_pair(program, open_a, close_a),
        is_pair(program, open_b, close_b),
    ensures
        open_a == open_b <==> close_a == close_b,
{
    lemma_pair_encloses(program, open_a, close_a);
    lemma_pair_encloses(program, open_b, close_b);
    if open_a == open_b {
        if close_a < close_b {
            assert(depth(program, close_a + 1) > depth(program, open_b));
        }
        if close_b < close_a {
            assert(depth(program, close_b + 1) > depth(program, open_a));
        }
    }
    if close_a == close_b {
        if open_a < open_b {
            assert(depth(program, open_b) > depth(program, open_a));
        }
        if open_b < open_a {
            assert(depth(program, open_a) > depth(program, open_b));
        }
    }
}

/// Pairs do not depend on jump targets.
pub proof fn lemma_pair_same_shape(
    a: Seq<Instruction>,
    b: Seq<Instruction>,
    open: int,
    close: int,
)
    requires
        same_shape(a, b),
    ensures
        is_pair(a, open, close) == is_pair(b, open, close),
{
    lemma_pair_encloses(a, open, close);
    lemma_pair_encloses(b, open, close);
    if 0 <= open < close < a.len() {
        assert(erase_target(a[open]) == erase_target(b[open]));
        assert(erase_target(a[close]) == erase_target(b[close]));
        lemma_depth_same_shape(a, b, open);
        lemma_depth_same_shape(a, b, close + 1);
        assert forall|k: int| open < k <= close implies depth(a, k) == depth(b, k) by {
            lemma_depth_same_shape(a, b, k);
        }
    }
}

/// Resolution leaves no choice: two resolved programs of the same shape are
/// the same program.
pub proof fn lemma_resolved_unique(a: Seq<Instruction>, b: Seq<Instruction>)
    requires
        same_shape(a, b),
        resolved(a),
        resolved(b),
    ensures
        a == b,
{
    assert forall|i: int| 0 <= i < a.len() implies a[i] == b[i] by {
        assert(erase_target(a[i]) == erase_target(b[i]));
        assert(linked_at(a, i) && linked_at(b, i));
        match a[i] {
            Instruction::Open(target) => {
                let other = b[i]->Open_0;
                lemma_pair_same_shape(a, b, i, other as int);
                lemma_pair_unique(a, i, target as int, i, other as int);
            },
            Instruction::Close(target) => {
                let other = b[i]->Close_0;
                lemma_pair_same_shape(a, b, other as int, i);
                lemma_pair_unique(a, target as int, i, other as int, i);
            },
            _ => {},
        }
    }
    assert(a =~= b);
}

/// An unbalanced program is at fault in one place only.
pub proof fn lemma_fault_unique(program: Seq<Instruction>, p: int, q: int)
    requires
        bracket_fault(program, p),
        bracket_fault(program, q),
    ensures
        p == q,
{
    if stray_close(program, p) {
        assert(depth(program, p + 1) == depth(program, p) - 1);
    }
    if stray_close(program, q) {
        assert(depth(program, q + 1) == depth(program, q) - 1);
    }
    if dangling_open(program, p) && dangling_open(program, q) {
        if p < q {
            assert(depth(program, q) > depth(program, p));
        }
        if q < p {
            assert(depth(program, p) > depth(program, q));
        }
    }
}

/// A fault is found in unbalanced programs only.
pub proof fn lemma_fault_unbalanced(program: Seq<Instruction>, position: int)
    requires
        bracket_fault(program, position),
    ensures
        !balanced(program),
{
    if stray_close(program, position) {
        assert(depth(program, position + 1) == depth(program, position) - 1);
    } else {
        assert(depth(program, position + 1) > depth(program, position));
    }
}

/// The opening bracket at `open`, the `level`-th that is still waiting for
/// its counterpart after `done` instructions.
spec fn waiting(program: Seq<Instruction>, open: int, level: int, done: int) -> bool {
    &&& 0 <= open < done
    &&& program[open] is Open
    &&& depth(program, open) == level
    &&& forall|k: int| open < k <= done ==> #[trigger] depth(program, k) > level
}

/// The brackets at `open` and `close` enclose a span and hold each other's
/// index in `linked`.
spec fn joined(program: Seq<Instruction>, linked: Seq<Instruction>, open: int, close: int) -> bool {
    &&& encloses(program, open, close)
    &&& linked[open] matches Instruction::Open(target) && target == close
    &&& linked[close] matches Instruction::Close(target) && target == open
}

/// The closing bracket at `close` has been joined to its counterpart.
spec fn close_settled(program: Seq<Instruction>, linked: Seq<Instruction>, close: int) -> bool {
    linked[close] matches Instruction::Close(target) && joined(
        program,
        linked,
        target as int,
        close,
    )
}

/// The opening bracket at `open` is on the stack of waiting brackets, or has
/// been joined to a counterpart among the first `done` instructions.
spec fn open_settled(
    program: Seq<Instruction>,
    linked: Seq<Instruction>,
    stack: Seq<usize>,
    open: int,
    done: int,
) -> bool {
    ||| 0 <= depth(program, open) < stack.len() && stack[depth(program, open)] == open
    ||| linked[open] matches Instruction::Open(target) && target < done && joined(
        program,
        linked,
        open,
        target as int,
    )
}

/// What holds of the scan after `done` instructions.
spec fn scanned(
    program: Seq<Instruction>,
    linked: Seq<Instruction>,
    stack: Seq<usize>,
    done: int,
) -> bool {
    &&& 0 <= done <= program.len()
    &&& linked.len() == done
    &&& stack.len() == depth(program, done)
    &&& forall|k: int| 0 <= k < done ==> erase_target(#[trigger] linked[k]) == erase_target(program[k])
    &&& forall|k: int| 0 <= k <= done ==> #[trigger] depth(program, k) >= 0
    &&& forall|p: int| 0 <= p < stack.len() ==> waiting(program, #[trigger] stack[p] as int, p, done)
    &&& forall|j: int|
        0 <= j < done && program[j] is Close ==> #[trigger] close_settled(program, linked, j)
    &&& forall|o: int|
        0 <= o < done && program[o] is Open ==> #[trigger] open_settled(
            program,
            linked,
            stack,
            o,
            done,
        )
}

/// The scan moves past an opening bracket.
proof fn lemma_scan_open(
    program: Seq<Instruction>,
    linked: Seq<Instruction>,
    stack: Seq<usize>,
    done: int,
)
    requires
        scanned(program, linked, stack, done),
        done < program.len(),
        done <= usize::MAX,
        program[done] is Open,
    ensures
        scanned(program, linked.push(program[done]), stack.push(done as usize), done + 1),
{
    let linked2 = linked.push(program[done]);
    let stack2 = stack.push(done as usize);
    assert(depth(program, done + 1) == depth(program, done) + 1);
    assert forall|p: int| 0 <= p < stack2.len() implies waiting(
        program,
        #[trigger] stack2[p] as int,
        p,
        done + 1,
    ) by {
        if p < stack.len() {
            assert(waiting(program, stack[p] as int, p, done));
            assert(depth(program, done) > p);
        }
    }
    assert forall|j: int| 0 <= j < done + 1 && program[j] is Close implies #[trigger] close_settled(
        program,
        linked2,
        j,
    ) by {
        assert(close_settled(program, linked, j));
    }
    assert forall|o: int| 0 <= o < done + 1 && program[o] is Open implies #[trigger] open_settled(
        program,
        linked2,
        stack2,
        o,
        done + 1,
    ) by {
        if o < done {
            assert(open_settled(program, linked, stack, o, done));
        }
    }
}

/// The scan moves past an instruction that is no bracket.
proof fn lemma_scan_plain(
    program: Seq<Instruction>,
    linked: Seq<Instruction>,
    stack: Seq<usize>,
    done: int,
)
    requires
        scanned(program, linked, stack, done),
        done < program.len(),
        !(program[done] is Open),
        !(program[done] is Close),
    ensures
        scanned(program, linked.push(program[done]), stack, done + 1),
{
    let linked2 = linked.push(program[done]);
    assert(depth(program, done + 1) == depth(program, done));
    assert forall|p: int| 0 <= p < stack.len() implies waiting(
        program,
        #[trigger] stack[p] as int,
        p,
        done + 1,
    ) by {
        assert(waiting(program, stack[p] as int, p, done));
        assert(depth(program, done) > p);
    }
    assert forall|j: int| 0 <= j < done + 1 && program[j] is Close implies #[trigger] close_settled(
        program,
        linked2,
        j,
    ) by {
        assert(close_settled(program, linked, j));
    }
    assert forall|o: int| 0 <= o < done + 1 && program[o] is Open implies #[trigger] open_settled(
        program,
        linked2,
        stack,
        o,
        done + 1,
    ) by {
        assert(open_settled(program, linked, stack, o, done));
    }
}

/// The scan moves past a closing bracket and joins it to the opening
/// bracket on top of the stack.
proof fn lemma_scan_close(
    program: Seq<Instruction>,
    linked: Seq<Instruction>,
    stack: Seq<usize>,
    done: int,
)
    requires
        scanned(program, linked, stack, done),
        done < program.len(),
        done <= usize::MAX,
        program[done] is Close,
        stack.len() > 0,
    ensures
        0 <= stack.last() < done,
        scanned(
            program,
            linked.update(stack.last() as int, Instruction::Open(done as usize)).push(
                Instruction::Close(stack.last()),
            ),
            stack.drop_last(),
            done + 1,
        ),
{
    let top = stack.last() as int;
    let linked2 = linked.update(top, Instruction::Open(done as usize)).push(
        Instruction::Close(stack.last()),
    );
    let stack2 = stack.drop_last();
    assert(depth(program, done + 1) == depth(program, done) - 1);
    assert(waiting(program, stack[stack.len() - 1] as int, stack.len() - 1, done));
    assert(joined(program, linked2, top, done));
    assert forall|k: int| 0 <= k < done + 1 implies erase_target(#[trigger] linked2[k])
        == erase_target(program[k]) by {
        if k != top && k != done {
            assert(linked2[k] == linked[k]);
        }
    }
    assert forall|p: int| 0 <= p < stack2.len() implies waiting(
        program,
        #[trigger] stack2[p] as int,
        p,
        done + 1,
    ) by {
        assert(waiting(program, stack[p] as int, p, done));
    }
    assert forall|j: int| 0 <= j < done + 1 && program[j] is Close implies #[trigger] close_settled(
        program,
        linked2,
        j,
    ) by {
        if j < done {
            assert(close_settled(program, linked, j));
            let open = linked[j]->Close_0 as int;
            assert(depth(program, j + 1) == depth(program, open));
            assert(open != top);
            assert(linked2[j] == linked[j]);
            assert(linked2[open] == linked[open]);
        }
    }
    assert forall|o: int| 0 <= o < done + 1 && program[o] is Open implies #[trigger] open_settled(
        program,
        linked2,
        stack2,
        o,
        done + 1,
    ) by {
        if o != top {
            assert(open_settled(program, linked, stack, o, done));
            if 0 <= depth(program, o) < stack.len() && stack[depth(program, o)] == o {
                assert(depth(program, o) < stack2.len());
            } else {
                let close = linked[o]->Open_0 as int;
                assert(linked2[o] == linked[o]);
                assert(linked2[close] == linked[close]);
            }
        }
    }
}

/// Once the scan is through and no bracket is waiting, the program is
/// balanced and every bracket has been joined to its counterpart.
proof fn lemma_scan_complete(program: Seq<Instruction>, linked: Seq<Instruction>)
    requires
        scanned(program, linked, Seq::<usize>::empty(), program.len() as int),
    ensures
        balanced(program),
        same_shape(program, linked),
        resolved(linked),
{
    let done = program.len() as int;
    let none = Seq::<usize>::empty();
    assert(same_shape(program, linked));
    assert forall|i: int| 0 <= i < linked.len() implies #[trigger] linked_at(linked, i) by {
        assert(erase_target(linked[i]) == erase_target(program[i]));
        match linked[i] {
            Instruction::Open(target) => {
                assert(open_settled(program, linked, none, i, done));
                lemma_pair_encloses(program, i, target as int);
                lemma_pair_same_shape(program, linked, i, target as int);
            },
            Instruction::Close(target) => {
                assert(close_settled(program, linked, i));
                lemma_pair_encloses(program, target as int, i);
                lemma_pair_same_shape(program, linked, target as int, i);
            },
            _ => {},
        }
    }
}

/// Resolves the brackets of a program with a stack of the opening brackets
/// that still wait for their counterpart.
///
/// A balanced program comes back with every bracket holding the index of its
/// counterpart and nothing else changed. An unbalanced one is refused, with
/// the place of the fault.
pub fn resolve(program: &Vec<Instruction>) -> (r: Result<Vec<Instruction>, Error>)
    ensures
        match r {
            Ok(linked) => {
                &&& balanced(program@)
                &&& same_shape(program@, linked@)
                &&& resolved(linked@)
            },
            Err(e) => {
                &&& !balanced(program@)
                &&& e matches Error::UnbalancedBrackets { position }
                &&& bracket_fault(program@, position as int)
            },
        },
{
    let mut linked: Vec<Instruction> = Vec::new();
    let mut stack: Vec<usize> = Vec::new();
    let mut i: usize = 0;
    while i < program.len()
        invariant
            scanned(program@, linked@, stack@, i as int),
        decreases program.len() - i,
    {
        let ins = program[i];
        match ins {
            Instruction::Open(_) => {
                proof {
                    lemma_scan_open(program@, linked@, stack@, i as int);
                }
                stack.push(i);
                linked.push(ins);
            },
            Instruction::Close(_) => {
                let ghost waiting_before = stack@;
                match stack.pop() {
                    Some(open) => {
                        proof {
                            lemma_scan_close(program@, linked@, waiting_before, i as int);
                        }
                        linked.set(open, Instruction::Open(i));
                        linked.push(Instruction::Close(open));
                    },
                    None => {
                        proof {
                            assert(stray_close(program@, i as int));
                            lemma_fault_unbalanced(program@, i as int);
                        }
                        return Err(Error::UnbalancedBrackets { position: i });
                    },
                }
            },
            _ => {
                proof {
                    lemma_scan_plain(program@, linked@, stack@, i as int);
                }
                linked.push(ins);
            },
        }
        i += 1;
    }
    if stack.len() > 0 {
        let open = stack[stack.len() - 1];
        proof {
            assert(waiting(program@, stack@[stack@.len() - 1] as int, stack@.len() - 1, i as int));
            assert(dangling_open(program@, open as int));
            lemma_fault_unbalanced(program@, open as int);
        }
        return Err(Error::UnbalancedBrackets { position: open });
    }
    proof {
        assert(stack@ =~= Seq::<usize>::empty());
        lemma_scan_complete(program@, linked@);
    }
    Ok(linked)
}

} // verus!
