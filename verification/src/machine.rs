//! The tape machine: executable state and the functions that move it.

use vstd::prelude::*;
use crate::command::{lemma_loop_model, parse, Command, Instruction, ParseError};
use crate::semantics::{
    bounded_run, bounded_run_from, Cursor, Direction, RuntimeError, State, Status, Step,
};
use crate::token::{lex, Token};

verus! {

/// The number of cells of the tape that [`Machine::run`] gives a program.
pub const DEFAULT_TAPE_LEN: usize = 30000;

/// A body of commands together with the index of the next one to run.
#[derive(Clone, Copy)]
struct Frame<'a> {
    body: &'a Vec<Command>,
    pos: usize,
}

impl<'a> View for Frame<'a> {
    type V = Cursor;

    closed spec fn view(&self) -> Cursor {
        Cursor { body: self.body.deep_view(), pos: self.pos as nat }
    }
}

/// The cells and the pointer, which always stands on one of them.
struct Tape {
    cells: Vec<u8>,
    ptr: usize,
}

impl Tape {
    #[verifier::type_invariant]
    spec fn inv(self) -> bool {
        self.ptr < self.cells.len()
    }

    fn new(len: usize) -> (tape: Tape)
        requires
            len > 0,
        ensures
            tape.cells@ == Seq::new(len as nat, |i: int| 0u8),
            tape.ptr == 0,
    {
        let tape = Tape { cells: vec![0u8; len], ptr: 0 };
        assert(tape.cells@ =~= Seq::new(len as nat, |i: int| 0u8));
        tape
    }

    fn cell(&self) -> (value: u8)
        ensures
            self.ptr < self.cells.len(),
            value == self.cells[self.ptr as int],
    {
        proof {
            use_type_invariant(self);
        }
        self.cells[self.ptr]
    }

    fn store(&mut self, value: u8)
        ensures
            final(self).cells@ == old(self).cells@.update(old(self).ptr as int, value),
            final(self).ptr == old(self).ptr,
    {
        proof {
            use_type_invariant(&*self);
        }
        self.cells[self.ptr] = value;
    }

    fn move_right(&mut self) -> (moved: bool)
        ensures
            moved == (old(self).ptr + 1 < old(self).cells.len()),
            final(self).cells == old(self).cells,
            final(self).ptr == if moved { old(self).ptr + 1 } else { old(self).ptr as int },
    {
        proof {
            use_type_invariant(&*self);
        }
        if self.ptr + 1 < self.cells.len() {
            self.ptr += 1;
            true
        } else {
            false
        }
    }

    fn move_left(&mut self) -> (moved: bool)
        ensures
            moved == (old(self).ptr > 0),
            final(self).cells == old(self).cells,
            final(self).ptr == if moved { old(self).ptr - 1 } else { old(self).ptr as int },
    {
        if self.ptr > 0 {
            proof {
                use_type_invariant(&*self);
            }
            self.ptr -= 1;
            true
        } else {
            false
        }
    }
}

/// What a bounded run did: the bytes it wrote, the number of input bytes it
/// read, and how it ended.
#[derive(Debug)]
pub struct Outcome {
    pub output: Vec<u8>,
    pub consumed: usize,
    pub status: Status,
}

/// What running a source text did: the tape and the pointer at the end, the
/// bytes written, the number of input bytes read, and how the run ended.
#[derive(Debug)]
pub struct Report {
    pub tape: Vec<u8>,
    pub pointer: usize,
    pub output: Vec<u8>,
    pub consumed: usize,
    pub status: Status,
}

/// The tape, the pointer into it, and the frames of the program being run.
pub struct Machine<'a> {
    tape: Tape,
    frames: Vec<Frame<'a>>,
}

impl<'a> View for Machine<'a> {
    type V = State;

    closed spec fn view(&self) -> State {
        State {
            tape: self.tape.cells@,
            pointer: self.tape.ptr as nat,
            frames: self.frames@.map_values(|frame: Frame<'a>| frame@),
        }
    }
}

impl<'a> Machine<'a> {
    /// A machine with a zeroed tape of `tape_len` cells, the pointer on cell
    /// 0 and no program loaded.
    pub fn new(tape_len: usize) -> (machine: Machine<'a>)
        requires
            tape_len > 0,
        ensures
            machine@ == State::fresh(tape_len as nat),
            machine@.wf(),
    {
        let machine = Machine { tape: Tape::new(tape_len), frames: Vec::new() };
        proof {
            assert(machine@.tape =~= State::fresh(tape_len as nat).tape);
            assert(machine@.frames =~= State::fresh(tape_len as nat).frames);
        }
        machine
    }

    /// Loads `commands`: the next step runs their first command. The tape
    /// and the pointer stay as they are.
    pub fn load(&mut self, commands: &'a Vec<Command>)
        ensures
            final(self)@ == old(self)@.load(commands.deep_view()),
            final(self)@.wf(),
    {
        proof {
            use_type_invariant(&self.tape);
        }
        let mut frames: Vec<Frame<'a>> = Vec::new();
        frames.push(Frame { body: commands, pos: 0 });
        self.frames = frames;
        proof {
            assert(self@.frames =~= old(self)@.load(commands.deep_view()).frames);
        }
    }

    /// The tape.
    pub fn tape(&self) -> (tape: &Vec<u8>)
        ensures
            tape@ == self@.tape,
    {
        &self.tape.cells
    }

    /// The index of the current cell.
    pub fn pointer(&self) -> (pointer: usize)
        ensures
            pointer == self@.pointer,
    {
        self.tape.ptr
    }

    /// Whether nothing is left to run.
    pub fn is_halted(&self) -> (halted: bool)
        ensures
            halted == self@.halted(),
    {
        self.frames.len() == 0
    }

    /// Whether the next step is an input instruction, so that it needs to be
    /// offered a byte.
    pub fn wants_input(&self) -> (wanted: bool)
        ensures
            wanted == (self@.current() == Some(Instruction::Input)),
    {
        let depth = self.frames.len();
        if depth == 0 {
            return false;
        }
        let top = self.frames[depth - 1];
        if top.pos >= top.body.len() {
            return false;
        }
        match &top.body[top.pos] {
            Command::Input => true,
            Command::Loop(body) => {
                proof {
                    lemma_loop_model(*body);
                }
                false
            },
            _ => false,
        }
    }

    /// Takes one step of the program, offering it `input` as the next unread
    /// input byte.
    pub fn step(&mut self, input: Option<u8>) -> (result: Result<Step, RuntimeError>)
        ensures
            (final(self)@, result) == old(self)@.step(input),
            final(self)@.wf(),
    {
        proof {
            use_type_invariant(&self.tape);
        }
        let depth = self.frames.len();
        if depth == 0 {
            return Ok(Step::Halted);
        }
        let top = self.frames[depth - 1];
        if top.pos >= top.body.len() {
            self.frames.pop();
            proof {
                assert(self@.frames =~= old(self)@.frames.drop_last());
            }
            return Ok(Step::Advanced);
        }
        let done = Frame { body: top.body, pos: top.pos + 1 };
        let body: &'a Vec<Command> = top.body;
        let result = match &body[top.pos] {
            Command::IncrementPtr => {
                if self.tape.move_right() {
                    self.frames.set(depth - 1, done);
                    Ok(Step::Advanced)
                } else {
                    Err(RuntimeError::PointerOutOfBounds(Direction::Right))
                }
            },
            Command::DecrementPtr => {
                if self.tape.move_left() {
                    self.frames.set(depth - 1, done);
                    Ok(Step::Advanced)
                } else {
                    Err(RuntimeError::PointerOutOfBounds(Direction::Left))
                }
            },
            Command::Increment => {
                let cell = self.tape.cell();
                self.tape.store(cell.wrapping_add(1));
                self.frames.set(depth - 1, done);
                Ok(Step::Advanced)
            },
            Command::Decrement => {
                let cell = self.tape.cell();
                self.tape.store(cell.wrapping_sub(1));
                self.frames.set(depth - 1, done);
                Ok(Step::Advanced)
            },
            Command::Output => {
                let cell = self.tape.cell();
                self.frames.set(depth - 1, done);
                Ok(Step::Output(cell))
            },
            Command::Input => match input {
                Some(byte) => {
                    self.tape.store(byte);
                    self.frames.set(depth - 1, done);
                    Ok(Step::Input)
                },
                None => Err(RuntimeError::InputExhausted),
            },
            Command::Loop(inner) => {
                proof {
                    lemma_loop_model(*inner);
                }
                if self.tape.cell() == 0 {
                    self.frames.set(depth - 1, done);
                } else {
                    self.frames.push(Frame { body: inner, pos: 0 });
                }
                Ok(Step::Advanced)
            },
        };
        proof {
            use_type_invariant(&self.tape);
            let (next, _) = old(self)@.step(input);
            assert(self@.frames =~= next.frames);
        }
        result
    }

    /// Loads `commands` and runs them on the current tape for at most
    /// `max_steps` steps, reading from `input` and collecting what is
    /// written. A run that is suspended can be taken further with
    /// [`Machine::step`].
    pub fn execute(&mut self, commands: &'a Vec<Command>, input: &[u8], max_steps: u64) -> (outcome:
        Outcome)
        ensures
            ({
                let run = bounded_run(
                    old(self)@.load(commands.deep_view()),
                    input@,
                    max_steps as nat,
                );
                &&& final(self)@ == run.state
                &&& outcome.output@ == run.output
                &&& outcome.consumed == run.consumed
                &&& outcome.status == run.status
            }),
            final(self)@.wf(),
    {
        self.load(commands);
        let ghost start = self@;
        let mut output: Vec<u8> = Vec::new();
        let mut consumed: usize = 0;
        let mut steps_left: u64 = max_steps;
        loop
            invariant
                consumed <= input.len(),
                self@.wf(),
                start == old(self)@.load(commands.deep_view()),
                bounded_run_from(self@, input@, consumed as nat, output@, steps_left as nat)
                    == bounded_run(start, input@, max_steps as nat),
            decreases steps_left,
        {
            if self.is_halted() {
                return Outcome { output, consumed, status: Status::Halted };
            }
            if steps_left == 0 {
                return Outcome { output, consumed, status: Status::Suspended };
            }
            let offered = if consumed < input.len() {
                Some(input[consumed])
            } else {
                None
            };
            match self.step(offered) {
                Err(error) => {
                    return Outcome { output, consumed, status: Status::Failed(error) };
                },
                Ok(Step::Output(byte)) => {
                    output.push(byte);
                },
                Ok(Step::Input) => {
                    consumed += 1;
                },
                Ok(_) => {},
            }
            steps_left -= 1;
        }
    }

    /// Gives up the machine for its tape and pointer.
    pub fn into_tape(self) -> (parts: (Vec<u8>, usize))
        ensures
            parts.0@ == self@.tape,
            parts.1 == self@.pointer,
    {
        let Machine { tape, frames } = self;
        let Tape { cells, ptr } = tape;
        (cells, ptr)
    }

    /// Lexes and parses `source` and, unless that fails, runs the program on
    /// a fresh tape of [`DEFAULT_TAPE_LEN`] cells for at most `max_steps`
    /// steps, reading from `input`. A parse error is reported before
    /// anything is run.
    pub fn run(source: &str, input: &[u8], max_steps: u64) -> (result: Result<Report, ParseError>)
        ensures
            match parse(lex(source@)) {
                Err(error) => result == Err::<Report, ParseError>(error),
                Ok(program) => {
                    let run = bounded_run(
                        State::fresh(DEFAULT_TAPE_LEN as nat).load(program),
                        input@,
                        max_steps as nat,
                    );
                    &&& result matches Ok(report)
                    &&& report.tape@ == run.state.tape
                    &&& report.pointer == run.state.pointer
                    &&& report.output@ == run.output
                    &&& report.consumed == run.consumed
                    &&& report.status == run.status
                },
            },
    {
        let tokens = Token::tokenization(source);
        let commands = match Command::parse_command(tokens) {
            Ok(commands) => commands,
            Err(error) => {
                return Err(error);
            },
        };
        let mut machine = Machine::new(DEFAULT_TAPE_LEN);
        let outcome = machine.execute(&commands, input, max_steps);
        let (tape, pointer) = machine.into_tape();
        Ok(
            Report {
                tape,
                pointer,
                output: outcome.output,
                consumed: outcome.consumed,
                status: outcome.status,
            },
        )
    }
}

} // verus!
