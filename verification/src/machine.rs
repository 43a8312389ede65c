//! The execution engine: a program, a tape of byte cells, a program counter
//! and a cell pointer, and the rule that takes the machine one instruction
//! further.

use crate::brackets::{balanced, bracket_fault, linked_at, resolve, resolved, same_shape};
use crate::error::Error;
use crate::instruction::{lemma_lex_of_comments, lex, lex_char, Instruction};
use crate::optimizer::{fold, fold_program};
use vstd::prelude::*;

verus! {

/// The number of cells a new machine starts with.
pub const INITIAL_CELLS: usize = 30000;

/// The number of cells by which the tape grows beyond the cell that a move
/// to the right has reached.
pub const GROWTH_CHUNK: usize = 1024;

/// The state of a machine as a mathematical value.
pub struct State {
    /// The instructions being run.
    pub program: Seq<Instruction>,
    /// The cells of the tape, from the leftmost on.
    pub tape: Seq<u8>,
    /// The index of the instruction to run next.
    pub pc: nat,
    /// The index of the current cell.
    pub ptr: nat,
}

impl State {
    /// The cell pointer names a cell of the tape.
    pub open spec fn wf(self) -> bool {
        self.ptr < self.tape.len()
    }

    /// No instruction is left to run. A counter that starts within a
    /// resolved program never passes its end, so in every run from the start
    /// this means that the counter equals the length of the program.
    pub open spec fn halted(self) -> bool {
        self.pc >= self.program.len()
    }

    /// The instruction to run next.
    pub open spec fn current(self) -> Instruction {
        self.program[self.pc as int]
    }

    /// The value of the current cell.
    pub open spec fn cell(self) -> u8 {
        self.tape[self.ptr as int]
    }

    /// The next instruction reads a byte of input.
    pub open spec fn awaits_input(self) -> bool {
        !self.halted() && self.current() is Comma
    }

    /// The same machine with another value in the current cell and the
    /// counter one further.
    pub open spec fn store(self, value: u8) -> State {
        State { tape: self.tape.update(self.ptr as int, value), pc: self.pc + 1, ..self }
    }

    /// The same machine with the counter at `pc`.
    pub open spec fn goto(self, pc: nat) -> State {
        State { pc, ..self }
    }
}

/// A cell value after `count` increments: addition modulo 256.
pub open spec fn cell_plus(value: u8, count: nat) -> u8 {
    ((value + count) % 256) as u8
}

/// A cell value after `count` decrements: subtraction modulo 256.
pub open spec fn cell_minus(value: u8, count: nat) -> u8 {
    ((value - count) % 256) as u8
}

/// A stretch of `n` cells that hold zero.
pub open spec fn zeros(n: nat) -> Seq<u8> {
    Seq::new(n, |i: int| 0u8)
}

/// One step of the machine: the state after the instruction at the counter,
/// with the byte it wrote, if it wrote one, or the reason why it cannot be
/// run. `input` is the next byte of the input stream, if there is one; only
/// `Comma` looks at it. A halted machine stays as it is.
pub open spec fn transition(s: State, input: Option<u8>) -> Result<(State, Option<u8>), Error> {
    if s.halted() {
        Ok((s, None))
    } else {
        match s.current() {
            Instruction::Inc(n) => Ok((s.store(cell_plus(s.cell(), n as nat)), None)),
            Instruction::Dec(n) => Ok((s.store(cell_minus(s.cell(), n as nat)), None)),
            Instruction::Right(n) => {
                let to = s.ptr + n as nat;
                if to < s.tape.len() {
                    Ok((State { ptr: to, pc: s.pc + 1, ..s }, None))
                } else if to + GROWTH_CHUNK <= usize::MAX {
                    let grown = s.tape + zeros((to + GROWTH_CHUNK - s.tape.len()) as nat);
                    Ok((State { tape: grown, ptr: to, pc: s.pc + 1, ..s }, None))
                } else {
                    Err(Error::TapeOverflow { position: s.pc as usize })
                }
            },
            Instruction::Left(n) => if n <= s.ptr {
                Ok((State { ptr: (s.ptr - n) as nat, pc: s.pc + 1, ..s }, None))
            } else {
                Err(Error::TapeUnderflow { position: s.pc as usize })
            },
            Instruction::Open(target) => if s.cell() == 0 {
                Ok((s.goto(target as nat + 1), None))
            } else {
                Ok((s.goto(s.pc + 1), None))
            },
            Instruction::Close(target) => if s.cell() != 0 {
                Ok((s.goto(target as nat + 1), None))
            } else {
                Ok((s.goto(s.pc + 1), None))
            },
            Instruction::Dot => Ok((s.goto(s.pc + 1), Some(s.cell()))),
            Instruction::Comma => match input {
                Some(byte) => Ok((s.store(byte), None)),
                None => Err(Error::InputExhausted { position: s.pc as usize }),
            },
        }
    }
}

/// The jump target of a bracket in a resolved program is an index of the
/// program.
pub proof fn lemma_targets_in_program(program: Seq<Instruction>, i: int)
    requires
        resolved(program),
        0 <= i < program.len(),
    ensures
        match program[i] {
            Instruction::Open(target) => i < target < program.len(),
            Instruction::Close(target) => target < i,
            _ => true,
        },
{
    assert(linked_at(program, i));
}

/// A run in progress: the machine, how many instructions it has run, how
/// many bytes of input it has read, what it has written, and why it failed,
/// if it did.
pub struct Run {
    pub state: State,
    pub steps: nat,
    pub consumed: nat,
    pub output: Seq<u8>,
    pub failure: Option<Error>,
}

impl Run {
    /// The run is over: the machine has halted or failed.
    pub open spec fn stopped(self) -> bool {
        self.state.halted() || self.failure is Some
    }
}

/// The start of a run: nothing run and nothing read yet, and an output
/// stream that holds `output` already.
pub open spec fn begin(state: State, output: Seq<u8>) -> Run {
    Run { state, steps: 0, consumed: 0, output, failure: None }
}

/// The run one instruction later. The instruction is offered the first byte
/// of `input` that has not been read; a failure leaves the machine and both
/// streams as they are.
pub open spec fn advance(run: Run, input: Seq<u8>) -> Run {
    let offered = if run.consumed < input.len() {
        Some(input[run.consumed as int])
    } else {
        None
    };
    match transition(run.state, offered) {
        Ok((next, emitted)) => Run {
            state: next,
            steps: run.steps + 1,
            consumed: if run.state.awaits_input() {
                run.consumed + 1
            } else {
                run.consumed
            },
            output: match emitted {
                Some(byte) => run.output.push(byte),
                None => run.output,
            },
            failure: None,
        },
        Err(e) => Run { failure: Some(e), ..run },
    }
}

/// The run after at most `limit` further instructions: it goes on until the
/// machine halts or fails or the limit is used up.
pub open spec fn run_for(run: Run, input: Seq<u8>, limit: nat) -> Run
    decreases limit,
{
    if limit == 0 || run.stopped() {
        run
    } else {
        run_for(advance(run, input), input, (limit - 1) as nat)
    }
}

/// A run that is over stays as it is, whatever the limit. So a machine
/// without instructions, or at the end of them, writes nothing, reads
/// nothing and leaves its tape alone.
pub proof fn lemma_stopped_run_stays(run: Run, input: Seq<u8>, limit: nat)
    requires
        run.stopped(),
    ensures
        run_for(run, input, limit) == run,
{
}

/// A run under a limit stops for one of three reasons: the machine halted,
/// it failed, or the limit was used up. It never runs more instructions
/// than the limit.
pub proof fn lemma_run_for_ends(run: Run, input: Seq<u8>, limit: nat)
    requires
        run.failure is None,
    ensures
        ({
            let end = run_for(run, input, limit);
            &&& run.steps <= end.steps <= run.steps + limit
            &&& end.stopped() || end.steps == run.steps + limit
        }),
    decreases limit,
{
    if limit > 0 && !run.stopped() {
        let next = advance(run, input);
        if next.failure is None {
            lemma_run_for_ends(next, input, (limit - 1) as nat);
        } else {
            lemma_stopped_run_stays(next, input, (limit - 1) as nat);
        }
    }
}

/// A run may be taken in two parts: running on under a second limit from
/// where a first limit stopped is running under the sum of both.
pub proof fn lemma_run_for_resumes(run: Run, input: Seq<u8>, first: nat, second: nat)
    ensures
        run_for(run_for(run, input, first), input, second) == run_for(run, input, first + second),
    decreases first,
{
    if run.stopped() {
        lemma_stopped_run_stays(run, input, first);
        lemma_stopped_run_stays(run, input, second);
        lemma_stopped_run_stays(run, input, first + second);
    } else if first > 0 {
        lemma_run_for_resumes(advance(run, input), input, (first - 1) as nat, second);
    }
}

/// On a resolved program a step keeps the program and a counter that is
/// within the program, or at its end, stays there; a pointer on the tape
/// stays on the tape.
pub proof fn lemma_step_stays_in_bounds(s: State, input: Option<u8>)
    requires
        resolved(s.program),
        s.wf(),
        s.pc <= s.program.len(),
        transition(s, input) is Ok,
    ensures
        ({
            let next = transition(s, input)->Ok_0.0;
            &&& next.program == s.program
            &&& next.pc <= next.program.len()
            &&& next.wf()
        }),
{
    if !s.halted() {
        lemma_targets_in_program(s.program, s.pc as int);
    }
}

/// Growth keeps what was on the tape: where a move to the right leaves the
/// tape, the tape becomes longer, every cell it had keeps its value, every
/// new cell holds zero, and the pointer names one of the new cells.
pub proof fn lemma_growth_keeps_cells(s: State, input: Option<u8>)
    requires
        s.wf(),
        !s.halted(),
        s.current() is Right,
        s.ptr + s.current()->Right_0 >= s.tape.len(),
        transition(s, input) is Ok,
    ensures
        ({
            let next = transition(s, input)->Ok_0.0;
            &&& next.tape.len() == s.ptr + s.current()->Right_0 + GROWTH_CHUNK
            &&& next.ptr == s.ptr + s.current()->Right_0
            &&& next.ptr < next.tape.len()
            &&& forall|i: int| 0 <= i < s.tape.len() ==> next.tape[i] == s.tape[i]
            &&& forall|i: int| s.tape.len() <= i < next.tape.len() ==> next.tape[i] == 0
        }),
{
}

/// No other instruction than a move to the right changes the length of the
/// tape, and no instruction ever shortens it or changes a cell other than
/// the current one.
pub proof fn lemma_step_keeps_other_cells(s: State, input: Option<u8>)
    requires
        s.wf(),
        transition(s, input) is Ok,
    ensures
        ({
            let next = transition(s, input)->Ok_0.0;
            &&& next.tape.len() >= s.tape.len()
            &&& !(s.current() is Right) || s.halted() ==> next.tape.len() == s.tape.len()
            &&& forall|i: int| 0 <= i < s.tape.len() && i != s.ptr ==> next.tape[i] == s.tape[i]
        }),
{
}

/// The sum of a sequence of counts.
pub open spec fn total(counts: Seq<nat>) -> nat
    decreases counts.len(),
{
    if counts.len() == 0 {
        0
    } else {
        total(counts.drop_last()) + counts.last()
    }
}

/// A cell value after one counted increment for each of `counts`, in order.
pub open spec fn incremented(value: u8, counts: Seq<nat>) -> u8
    decreases counts.len(),
{
    if counts.len() == 0 {
        value
    } else {
        cell_plus(incremented(value, counts.drop_last()), counts.last())
    }
}

/// A cell value after one counted decrement for each of `counts`, in order.
pub open spec fn decremented(value: u8, counts: Seq<nat>) -> u8
    decreases counts.len(),
{
    if counts.len() == 0 {
        value
    } else {
        cell_minus(decremented(value, counts.drop_last()), counts.last())
    }
}

/// Two counted increments in a row are one increment by the sum of the
/// counts, and likewise for decrements.
pub proof fn lemma_counts_combine(value: u8, first: nat, second: nat)
    ensures
        cell_plus(cell_plus(value, first), second) == cell_plus(value, first + second),
        cell_minus(cell_minus(value, first), second) == cell_minus(value, first + second),
{
    let up = (value + first) % 256;
    let down = (value - first) % 256;
    vstd::arithmetic::div_mod::lemma_mod_twice(value + first, 256);
    vstd::arithmetic::div_mod::lemma_mod_twice(value - first, 256);
    vstd::arithmetic::div_mod::lemma_add_mod_noop(value + first, second as int, 256);
    vstd::arithmetic::div_mod::lemma_add_mod_noop(up, second as int, 256);
    vstd::arithmetic::div_mod::lemma_sub_mod_noop(value - first, second as int, 256);
    vstd::arithmetic::div_mod::lemma_sub_mod_noop(down, second as int, 256);
}

/// Counted increments add up, and so do counted decrements: only the sum of
/// the counts matters, not how it is grouped.
pub proof fn lemma_counts_add_up(value: u8, counts: Seq<nat>)
    ensures
        incremented(value, counts) == cell_plus(value, total(counts)),
        decremented(value, counts) == cell_minus(value, total(counts)),
    decreases counts.len(),
{
    if counts.len() > 0 {
        lemma_counts_add_up(value, counts.drop_last());
        lemma_counts_combine(value, total(counts.drop_last()), counts.last());
    }
}

/// Increments that sum to 256, or to any multiple of it, bring a cell back
/// to the value it had, however they are grouped; so do decrements.
pub proof fn lemma_full_turn_restores(value: u8, counts: Seq<nat>)
    requires
        total(counts) % 256 == 0,
    ensures
        incremented(value, counts) == value,
        decremented(value, counts) == value,
{
    lemma_counts_add_up(value, counts);
}

/// The instruction is a counted increment (`up`) or a counted decrement.
pub open spec fn adjusts(ins: Instruction, up: bool) -> bool {
    if up {
        ins is Inc
    } else {
        ins is Dec
    }
}

/// The counts of the `len` instructions of the program from `from` on.
pub open spec fn counts_from(program: Seq<Instruction>, from: nat, len: nat) -> Seq<nat> {
    Seq::new(len, |j: int| crate::optimizer::repeat_count(program[from + j]))
}

/// A stretch of `len` increments, or of `len` decrements, that starts at the
/// counter runs through in `len` steps and changes the current cell only, by
/// the counts in turn.
proof fn lemma_stretch_runs(s: State, len: nat, up: bool, output: Seq<u8>, input: Seq<u8>)
    requires
        s.wf(),
        s.pc + len <= s.program.len(),
        forall|j: int| 0 <= j < len ==> adjusts(#[trigger] s.program[s.pc + j], up),
    ensures
        run_for(begin(s, output), input, len) == (Run {
            state: State {
                tape: s.tape.update(
                    s.ptr as int,
                    if up {
                        incremented(s.cell(), counts_from(s.program, s.pc, len))
                    } else {
                        decremented(s.cell(), counts_from(s.program, s.pc, len))
                    },
                ),
                pc: s.pc + len,
                ..s
            },
            steps: len,
            consumed: 0,
            output,
            failure: None,
        }),
    decreases len,
{
    if len == 0 {
        assert(s.tape.update(s.ptr as int, s.cell()) =~= s.tape);
    } else {
        let shorter = (len - 1) as nat;
        lemma_stretch_runs(s, shorter, up, output, input);
        lemma_run_for_resumes(begin(s, output), input, shorter, 1);
        let before = run_for(begin(s, output), input, shorter);
        let last = s.program[s.pc as int + shorter];
        assert(adjusts(last, up));
        assert(counts_from(s.program, s.pc, len).drop_last() =~= counts_from(
            s.program,
            s.pc,
            shorter,
        ));
        let after = advance(before, input);
        assert(run_for(before, input, 1) == run_for(after, input, 0));
        assert(after.state.tape =~= s.tape.update(
            s.ptr as int,
            if up {
                incremented(s.cell(), counts_from(s.program, s.pc, len))
            } else {
                decremented(s.cell(), counts_from(s.program, s.pc, len))
            },
        ));
    }
}

/// A stretch of increments whose counts sum to 256, or to a multiple of it,
/// leaves the whole tape as it was, however the increments are grouped, and
/// so does such a stretch of decrements: the machine only moves on to the
/// instruction behind the stretch.
pub proof fn lemma_full_turn_runs_to_same_tape(
    s: State,
    len: nat,
    up: bool,
    output: Seq<u8>,
    input: Seq<u8>,
)
    requires
        s.wf(),
        s.pc + len <= s.program.len(),
        forall|j: int| 0 <= j < len ==> adjusts(#[trigger] s.program[s.pc + j], up),
        total(counts_from(s.program, s.pc, len)) % 256 == 0,
    ensures
        run_for(begin(s, output), input, len) == (Run {
            state: s.goto(s.pc + len),
            steps: len,
            consumed: 0,
            output,
            failure: None,
        }),
{
    lemma_stretch_runs(s, len, up, output, input);
    lemma_full_turn_restores(s.cell(), counts_from(s.program, s.pc, len));
    assert(s.tape.update(s.ptr as int, s.cell()) =~= s.tape);
}

/// A source text without a single instruction character makes a program
/// that does nothing: however the machine is set up and whatever the limit,
/// the run ends where it began, with nothing read, nothing written and the
/// tape as it was.
pub proof fn lemma_comments_run_nowhere(
    text: Seq<char>,
    s: State,
    output: Seq<u8>,
    input: Seq<u8>,
    limit: nat,
)
    requires
        forall|i: int| 0 <= i < text.len() ==> lex_char(#[trigger] text[i]) is None,
        same_shape(fold(lex(text)), s.program),
    ensures
        run_for(begin(s, output), input, limit) == begin(s, output),
{
    lemma_lex_of_comments(text);
    lemma_stopped_run_stays(begin(s, output), input, limit);
}

/// How a call of `execute` that met no failure ended.
#[derive(Clone, Copy, Debug, PartialEq, Eq, Structural)]
pub struct Summary {
    /// The number of instructions that were run.
    pub steps: usize,
    /// The number of input bytes that were read.
    pub consumed: usize,
    /// Whether the machine ran to the end of its program.
    pub halted: bool,
}

/// A tape machine: the execution context of one run.
#[derive(Debug)]
pub struct Brainfuck {
    instructions: Vec<Instruction>,
    memory: Vec<u8>,
    ins_ptr: usize,
    mem_ptr: usize,
}

impl View for Brainfuck {
    type V = State;

    closed spec fn view(&self) -> State {
        State {
            program: self.instructions@,
            tape: self.memory@,
            pc: self.ins_ptr as nat,
            ptr: self.mem_ptr as nat,
        }
    }
}

impl Brainfuck {
    /// The cell pointer names a cell of the tape.
    pub open spec fn wf(&self) -> bool {
        self@.wf()
    }

    /// A machine at the start of `instructions`, on a tape of
    /// `INITIAL_CELLS` zeros with the pointer on the first of them.
    pub fn new(instructions: Vec<Instruction>) -> (machine: Self)
        ensures
            machine.wf(),
            machine@ == (State {
                program: instructions@,
                tape: zeros(INITIAL_CELLS as nat),
                pc: 0,
                ptr: 0,
            }),
    {
        let memory = vec![0u8; INITIAL_CELLS];
        assert(memory@ =~= zeros(INITIAL_CELLS as nat));
        Brainfuck { instructions, memory, ins_ptr: 0, mem_ptr: 0 }
    }

    /// Folds runs of the same cell or pointer operation into one counted
    /// instruction each. Tape, counter and pointer stay as they are.
    pub fn optimize(&mut self)
        ensures
            final(self)@ == (State { program: fold(old(self)@.program), ..old(self)@ }),
    {
        self.instructions = fold_program(&self.instructions);
    }

    /// Gives every loop bracket the index of its counterpart. A program
    /// whose brackets are not balanced is refused and left as it was.
    pub fn set_matching_paren(&mut self) -> (r: Result<(), Error>)
        ensures
            match r {
                Ok(()) => {
                    &&& balanced(old(self)@.program)
                    &&& same_shape(old(self)@.program, final(self)@.program)
                    &&& resolved(final(self)@.program)
                    &&& final(self)@ == (State { program: final(self)@.program, ..old(self)@ })
                },
                Err(e) => {
                    &&& !balanced(old(self)@.program)
                    &&& e matches Error::UnbalancedBrackets { position }
                    &&& bracket_fault(old(self)@.program, position as int)
                    &&& final(self)@ == old(self)@
                },
            },
    {
        match resolve(&self.instructions) {
            Ok(linked) => {
                self.instructions = linked;
                Ok(())
            },
            Err(e) => Err(e),
        }
    }

    /// The instructions of the machine.
    pub fn instructions(&self) -> (program: &Vec<Instruction>)
        ensures
            program@ == self@.program,
    {
        &self.instructions
    }

    /// The cells of the tape.
    pub fn memory(&self) -> (tape: &Vec<u8>)
        ensures
            tape@ == self@.tape,
    {
        &self.memory
    }

    /// The index of the instruction to run next.
    pub fn ins_ptr(&self) -> (pc: usize)
        ensures
            pc == self@.pc,
    {
        self.ins_ptr
    }

    /// The index of the current cell.
    pub fn mem_ptr(&self) -> (ptr: usize)
        ensures
            ptr == self@.ptr,
    {
        self.mem_ptr
    }

    /// Whether no instruction is left to run.
    pub fn is_halted(&self) -> (halted: bool)
        ensures
            halted == self@.halted(),
    {
        self.ins_ptr >= self.instructions.len()
    }

    /// Whether the next instruction reads a byte of input.
    pub fn needs_input(&self) -> (needed: bool)
        ensures
            needed == self@.awaits_input(),
    {
        if self.ins_ptr < self.instructions.len() {
            match self.instructions[self.ins_ptr] {
                Instruction::Comma => true,
                _ => false,
            }
        } else {
            false
        }
    }

    /// Writes `value` into the current cell.
    pub fn set_cell(&mut self, value: u8)
        requires
            old(self).wf(),
        ensures
            final(self)@ == (State {
                tape: old(self)@.tape.update(old(self)@.ptr as int, value),
                ..old(self)@
            }),
    {
        self.memory[self.mem_ptr] = value;
    }

    /// Puts `value` into the current cell and moves on to the next
    /// instruction.
    fn store(&mut self, value: u8)
        requires
            old(self).wf(),
            !old(self)@.halted(),
        ensures
            final(self)@ == old(self)@.store(value),
    {
        assert(self.instructions@.len() == self.instructions.len());
        self.memory[self.mem_ptr] = value;
        self.ins_ptr = self.ins_ptr + 1;
    }

    /// Moves the counter to `pc`.
    fn goto(&mut self, pc: usize)
        ensures
            final(self)@ == old(self)@.goto(pc as nat),
    {
        self.ins_ptr = pc;
    }

    /// Moves the pointer `n` cells to the right and lets the tape grow
    /// where the pointer leaves it.
    fn move_right(&mut self, n: usize) -> (r: Result<(), Error>)
        requires
            old(self).wf(),
            !old(self)@.halted(),
            old(self)@.current() == Instruction::Right(n),
        ensures
            match transition(old(self)@, None) {
                Ok((next, _)) => r is Ok && final(self)@ == next,
                Err(e) => r == Err::<(), Error>(e) && final(self)@ == old(self)@,
            },
    {
        assert(self.instructions@.len() == self.instructions.len());
        assert(self.memory@.len() == self.memory.len());
        let at = self.ins_ptr;
        let to = match self.mem_ptr.checked_add(n) {
            Some(to) => to,
            None => {
                return Err(Error::TapeOverflow { position: at });
            },
        };
        if to >= self.memory.len() {
            let ghost before = self.memory@;
            match to.checked_add(GROWTH_CHUNK) {
                Some(cells) => {
                    self.memory.resize(cells, 0);
                },
                None => {
                    return Err(Error::TapeOverflow { position: at });
                },
            }
            assert(self.memory@ =~= before + zeros((to + GROWTH_CHUNK - before.len()) as nat));
        }
        self.mem_ptr = to;
        self.ins_ptr = at + 1;
        Ok(())
    }

    /// Runs the instruction at the counter.
    ///
    /// `input` is the next byte of the input stream, or `None` at its end;
    /// it is read only where `needs_input` says so. The result is the byte
    /// that the instruction wrote, if it wrote one. An instruction that
    /// cannot be run leaves the machine as it is.
    pub fn step(&mut self, input: Option<u8>) -> (r: Result<Option<u8>, Error>)
        requires
            old(self).wf(),
            resolved(old(self)@.program),
        ensures
            final(self).wf(),
            match transition(old(self)@, input) {
                Ok((next, emitted)) => r == Ok::<Option<u8>, Error>(emitted) && final(self)@
                    == next,
                Err(e) => r == Err::<Option<u8>, Error>(e) && final(self)@ == old(self)@,
            },
    {
        let at = self.ins_ptr;
        if at >= self.instructions.len() {
            return Ok(None);
        }
        let value = self.memory[self.mem_ptr];
        match self.instructions[at] {
            Instruction::Inc(n) => {
                self.store(value.wrapping_add((n % 256) as u8));
                Ok(None)
            },
            Instruction::Dec(n) => {
                self.store(value.wrapping_sub((n % 256) as u8));
                Ok(None)
            },
            Instruction::Right(n) => match self.move_right(n) {
                Ok(()) => Ok(None),
                Err(e) => Err(e),
            },
            Instruction::Left(n) => {
                if n > self.mem_ptr {
                    return Err(Error::TapeUnderflow { position: at });
                }
                self.mem_ptr = self.mem_ptr - n;
                self.ins_ptr = at + 1;
                Ok(None)
            },
            Instruction::Open(target) => {
                proof {
                    lemma_targets_in_program(self@.program, at as int);
                }
                self.goto(if value == 0 { target + 1 } else { at + 1 });
                Ok(None)
            },
            Instruction::Close(target) => {
                proof {
                    lemma_targets_in_program(self@.program, at as int);
                }
                self.goto(if value != 0 { target + 1 } else { at + 1 });
                Ok(None)
            },
            Instruction::Dot => {
                self.goto(at + 1);
                Ok(Some(value))
            },
            Instruction::Comma => match input {
                Some(byte) => {
                    self.store(byte);
                    Ok(None)
                },
                None => Err(Error::InputExhausted { position: at }),
            },
        }
    }

    /// Runs the machine until it halts or fails, for at most `max_steps`
    /// instructions.
    ///
    /// `Comma` reads `input` byte by byte from its start; `Dot` appends to
    /// `output`. What was written before a failure stays in `output`, and the
    /// machine stays at the instruction that failed.
    pub fn execute(&mut self, input: &[u8], output: &mut Vec<u8>, max_steps: usize) -> (r: Result<
        Summary,
        Error,
    >)
        requires
            old(self).wf(),
            resolved(old(self)@.program),
        ensures
            final(self).wf(),
            ({
                let end = run_for(begin(old(self)@, old(output)@), input@, max_steps as nat);
                &&& final(self)@ == end.state
                &&& final(output)@ == end.output
                &&& match r {
                    Ok(summary) => {
                        &&& end.failure is None
                        &&& summary.steps == end.steps
                        &&& summary.consumed == end.consumed
                        &&& summary.halted == end.state.halted()
                        &&& summary.halted || summary.steps == max_steps
                    },
                    Err(e) => end.failure == Some(e),
                }
            }),
    {
        let ghost end = run_for(begin(self@, output@), input@, max_steps as nat);
        let mut steps: usize = 0;
        let mut consumed: usize = 0;
        while steps < max_steps && !self.is_halted()
            invariant
                self.wf(),
                resolved(self@.program),
                steps <= max_steps,
                consumed <= input@.len(),
                end == run_for(begin(old(self)@, old(output)@), input@, max_steps as nat),
                run_for(
                    Run {
                        state: self@,
                        steps: steps as nat,
                        consumed: consumed as nat,
                        output: output@,
                        failure: None,
                    },
                    input@,
                    (max_steps - steps) as nat,
                ) == end,
            decreases max_steps - steps,
        {
            let offered = if consumed < input.len() {
                Some(input[consumed])
            } else {
                None
            };
            let reads = self.needs_input();
            let ghost now = Run {
                state: self@,
                steps: steps as nat,
                consumed: consumed as nat,
                output: output@,
                failure: None,
            };
            match self.step(offered) {
                Ok(emitted) => {
                    if reads {
                        consumed = consumed + 1;
                    }
                    if let Some(byte) = emitted {
                        output.push(byte);
                    }
                    steps = steps + 1;
                },
                Err(e) => {
                    proof {
                        let failed = advance(now, input@);
                        assert(run_for(failed, input@, (max_steps - steps - 1) as nat) == failed);
                    }
                    return Err(e);
                },
            }
        }
        Ok(Summary { steps, consumed, halted: self.is_halted() })
    }
}

} // verus!