//! The meaning of programs: the state of the tape machine and its steps.

use vstd::prelude::*;
use crate::command::Instruction;

verus! {

/// The side of the tape that the pointer tried to leave.
#[derive(Clone, Copy, Debug, PartialEq, Eq)]
pub enum Direction {
    /// Below cell 0.
    Left,
    /// Beyond the last cell.
    Right,
}

/// Why a program stopped before its end.
#[derive(Clone, Copy, Debug, PartialEq, Eq)]
pub enum RuntimeError {
    /// The pointer would have left the tape on the given side.
    PointerOutOfBounds(Direction),
    /// An input instruction found no byte left to read.
    InputExhausted,
}

/// What one step of the machine did.
#[derive(Clone, Copy, Debug, PartialEq, Eq)]
pub enum Step {
    /// The machine moved on without input or output.
    Advanced,
    /// The machine wrote this byte.
    Output(u8),
    /// The machine read the byte it was offered.
    Input,
    /// There is nothing left to run; the state did not change.
    Halted,
}

/// How a bounded run ended.
#[derive(Clone, Copy, Debug, PartialEq, Eq)]
pub enum Status {
    /// The program ran to its end.
    Halted,
    /// The program failed; the machine stands at the failing instruction.
    Failed(RuntimeError),
    /// The step budget ran out first; the machine can be stepped further.
    Suspended,
}

/// A place in a body of instructions: `pos` instructions of `body` are done.
pub struct Cursor {
    pub body: Seq<Instruction>,
    pub pos: nat,
}

/// The state of the machine: the tape, the pointer, and the work still to
/// do. The last of `frames` is the body being run; each one before it is the
/// body whose loop, at its `pos`, the next one is the body of.
pub struct State {
    pub tape: Seq<u8>,
    pub pointer: nat,
    pub frames: Seq<Cursor>,
}

/// A cell after one increment: arithmetic modulo 256.
pub open spec fn incremented(cell: u8) -> u8 {
    ((cell + 1) % 256) as u8
}

/// A cell after one decrement: arithmetic modulo 256.
pub open spec fn decremented(cell: u8) -> u8 {
    ((cell + 255) % 256) as u8
}

impl State {
    /// A zeroed tape of `tape_len` cells with the pointer on cell 0 and no
    /// program loaded.
    pub open spec fn fresh(tape_len: nat) -> State {
        State { tape: Seq::new(tape_len, |i: int| 0u8), pointer: 0, frames: Seq::empty() }
    }

    /// The pointer is on the tape.
    pub open spec fn wf(self) -> bool {
        self.pointer < self.tape.len()
    }

    /// This state with `program` loaded in place of whatever was running.
    pub open spec fn load(self, program: Seq<Instruction>) -> State {
        State { frames: seq![Cursor { body: program, pos: 0 }], ..self }
    }

    /// Nothing is left to run.
    pub open spec fn halted(self) -> bool {
        self.frames.len() == 0
    }

    /// The instruction that the next step runs, if the machine stands before
    /// one (and not at the end of a body).
    pub open spec fn current(self) -> Option<Instruction> {
        if self.frames.len() > 0 && self.frames.last().pos < self.frames.last().body.len() {
            Some(self.frames.last().body[self.frames.last().pos as int])
        } else {
            None
        }
    }

    /// The cell under the pointer.
    pub open spec fn cell(self) -> u8 {
        self.tape[self.pointer as int]
    }

    /// This state with `value` in the cell under the pointer.
    pub open spec fn store(self, value: u8) -> State {
        State { tape: self.tape.update(self.pointer as int, value), ..self }
    }

    /// This state with the current instruction done.
    pub open spec fn advance(self) -> State {
        let top = self.frames.last();
        State {
            frames: self.frames.update(
                self.frames.len() - 1,
                Cursor { body: top.body, pos: top.pos + 1 },
            ),
            ..self
        }
    }

    /// One step of the machine, with `input` the next unread input byte, if
    /// there is one.
    ///
    /// * With nothing left to run the state stays as it is.
    /// * At the end of a body the machine returns to where the body was
    ///   entered from: to the loop it belongs to, whose test is then made
    ///   again, or, from the end of the program, to the halted state.
    /// * The pointer moves by one cell; a move off either end of the tape is
    ///   an error and moves nothing.
    /// * A cell is incremented or decremented modulo 256.
    /// * Output hands out the current cell; input stores the offered byte in
    ///   it, and is an error when none is offered.
    /// * A loop whose test finds the current cell zero is passed over;
    ///   otherwise its body is entered.
    ///
    /// A step that fails leaves the state unchanged.
    pub open spec fn step(self, input: Option<u8>) -> (State, Result<Step, RuntimeError>) {
        match self.current() {
            None => if self.halted() {
                (self, Ok(Step::Halted))
            } else {
                (State { frames: self.frames.drop_last(), ..self }, Ok(Step::Advanced))
            },
            Some(Instruction::IncrementPtr) => if self.pointer + 1 < self.tape.len() {
                (State { pointer: self.pointer + 1, ..self.advance() }, Ok(Step::Advanced))
            } else {
                (self, Err(RuntimeError::PointerOutOfBounds(Direction::Right)))
            },
            Some(Instruction::DecrementPtr) => if self.pointer > 0 {
                (
                    State { pointer: (self.pointer - 1) as nat, ..self.advance() },
                    Ok(Step::Advanced),
                )
            } else {
                (self, Err(RuntimeError::PointerOutOfBounds(Direction::Left)))
            },
            Some(Instruction::Increment) => (
                self.store(incremented(self.cell())).advance(),
                Ok(Step::Advanced),
            ),
            Some(Instruction::Decrement) => (
                self.store(decremented(self.cell())).advance(),
                Ok(Step::Advanced),
            ),
            Some(Instruction::Output) => (self.advance(), Ok(Step::Output(self.cell()))),
            Some(Instruction::Input) => match input {
                Some(byte) => (self.store(byte).advance(), Ok(Step::Input)),
                None => (self, Err(RuntimeError::InputExhausted)),
            },
            Some(Instruction::Loop(body)) => if self.cell() == 0 {
                (self.advance(), Ok(Step::Advanced))
            } else {
                (
                    State { frames: self.frames.push(Cursor { body, pos: 0 }), ..self },
                    Ok(Step::Advanced),
                )
            },
        }
    }
}

/// Where a bounded run stands: the machine, the number of input bytes read,
/// the bytes written, and why the run ended.
pub struct Run {
    pub state: State,
    pub consumed: nat,
    pub output: Seq<u8>,
    pub status: Status,
}

/// The run that takes at most `budget` further steps from `state`, when
/// `consumed` bytes of `input` have been read and `output` has been written
/// so far. Each input instruction reads the next unread byte of `input`. The
/// run ends when the machine halts, at the first step that fails, or when
/// the budget is spent.
pub open spec fn bounded_run_from(
    state: State,
    input: Seq<u8>,
    consumed: nat,
    output: Seq<u8>,
    budget: nat,
) -> Run
    decreases budget,
{
    if state.halted() {
        Run { state, consumed, output, status: Status::Halted }
    } else if budget == 0 {
        Run { state, consumed, output, status: Status::Suspended }
    } else {
        let offered = if consumed < input.len() {
            Some(input[consumed as int])
        } else {
            None
        };
        let (next, result) = state.step(offered);
        match result {
            Err(error) => Run { state, consumed, output, status: Status::Failed(error) },
            Ok(Step::Output(byte)) => bounded_run_from(
                next,
                input,
                consumed,
                output.push(byte),
                (budget - 1) as nat,
            ),
            Ok(Step::Input) => bounded_run_from(next, input, consumed + 1, output, (budget - 1) as nat),
            Ok(_) => bounded_run_from(next, input, consumed, output, (budget - 1) as nat),
        }
    }
}

/// The run of at most `budget` steps from `state` on the input `input`.
pub open spec fn bounded_run(state: State, input: Seq<u8>, budget: nat) -> Run {
    bounded_run_from(state, input, 0, Seq::empty(), budget)
}

/// The pointer stays on the tape and the tape keeps its length: a step from
/// a state whose pointer is on the tape leads to such a state again.
pub proof fn lemma_step_keeps_pointer_on_tape(state: State, input: Option<u8>)
    requires
        state.wf(),
    ensures
        state.step(input).0.wf(),
        state.step(input).0.tape.len() == state.tape.len(),
{
}

/// A step that fails changes nothing, and a halted machine stays halted.
pub proof fn lemma_step_failed_or_halted(state: State, input: Option<u8>)
    ensures
        state.step(input).1 is Err ==> state.step(input).0 == state,
        state.halted() ==> state.step(input) == (state, Ok::<Step, RuntimeError>(Step::Halted)),
{
}

/// A run never takes back what it has read or written: it reads on from
/// where it stood and writes after what was written.
pub proof fn lemma_run_extends(
    state: State,
    input: Seq<u8>,
    consumed: nat,
    output: Seq<u8>,
    budget: nat,
)
    ensures
        bounded_run_from(state, input, consumed, output, budget).consumed >= consumed,
        output.is_prefix_of(bounded_run_from(state, input, consumed, output, budget).output),
    decreases budget,
{
    if !state.halted() && budget > 0 {
        let offered = if consumed < input.len() {
            Some(input[consumed as int])
        } else {
            None
        };
        let (next, result) = state.step(offered);
        match result {
            Err(_) => {},
            Ok(Step::Output(byte)) => {
                lemma_run_extends(next, input, consumed, output.push(byte), (budget - 1) as nat);
            },
            Ok(Step::Input) => {
                lemma_run_extends(next, input, consumed + 1, output, (budget - 1) as nat);
            },
            Ok(_) => {
                lemma_run_extends(next, input, consumed, output, (budget - 1) as nat);
            },
        }
    }
}

/// The budget is no part of a program's meaning: a run that halted or
/// failed within its budget ends the same way under every larger budget.
pub proof fn lemma_run_budget_independent(
    state: State,
    input: Seq<u8>,
    consumed: nat,
    output: Seq<u8>,
    budget: nat,
    larger: nat,
)
    requires
        budget <= larger,
        bounded_run_from(state, input, consumed, output, budget).status != Status::Suspended,
    ensures
        bounded_run_from(state, input, consumed, output, larger) == bounded_run_from(
            state,
            input,
            consumed,
            output,
            budget,
        ),
    decreases budget,
{
    if !state.halted() && budget > 0 {
        let offered = if consumed < input.len() {
            Some(input[consumed as int])
        } else {
            None
        };
        let (next, result) = state.step(offered);
        let less = (budget - 1) as nat;
        let more = (larger - 1) as nat;
        match result {
            Err(_) => {},
            Ok(Step::Output(byte)) => {
                lemma_run_budget_independent(next, input, consumed, output.push(byte), less, more);
            },
            Ok(Step::Input) => {
                lemma_run_budget_independent(next, input, consumed + 1, output, less, more);
            },
            Ok(_) => {
                lemma_run_budget_independent(next, input, consumed, output, less, more);
            },
        }
    }
}

} // verus!
