//! Parsing: from the token sequence to the tree of commands.

use vstd::prelude::*;
use crate::token::Token;

verus! {

/// One parsed operation: a leaf operation, or a loop that owns the commands
/// of its body.
#[derive(Debug, PartialEq, Eq)]
pub enum Command {
    IncrementPtr,
    DecrementPtr,
    Increment,
    Decrement,
    Output,
    Input,
    Loop(Vec<Command>),
}

/// The mathematical model of a [`Command`]: the same tree, with sequences in
/// place of vectors.
pub enum Instruction {
    IncrementPtr,
    DecrementPtr,
    Increment,
    Decrement,
    Output,
    Input,
    Loop(Seq<Instruction>),
}

/// Why a token sequence is not a program.
#[derive(Clone, Copy, Debug, PartialEq, Eq)]
pub enum ParseError {
    /// The `[` at this index of the token sequence is never closed.
    UnmatchedOpenBracket(usize),
    /// The `]` at this index of the token sequence closes nothing.
    UnmatchedCloseBracket(usize),
}

impl Command {
    /// The instruction tree that this command stands for.
    pub open spec fn model(self) -> Instruction
        decreases self,
    {
        match self {
            Command::IncrementPtr => Instruction::IncrementPtr,
            Command::DecrementPtr => Instruction::DecrementPtr,
            Command::Increment => Instruction::Increment,
            Command::Decrement => Instruction::Decrement,
            Command::Output => Instruction::Output,
            Command::Input => Instruction::Input,
            Command::Loop(body) => Instruction::Loop(
                Seq::new(
                    body.len() as nat,
                    |i: int|
                        if 0 <= i < body.len() {
                            body[i].model()
                        } else {
                            Instruction::Output
                        },
                ),
            ),
        }
    }
}

impl DeepView for Command {
    type V = Instruction;

    open spec fn deep_view(&self) -> Instruction {
        self.model()
    }
}

/// A loop's model is the loop over the model of its body.
pub proof fn lemma_loop_model(body: Vec<Command>)
    ensures
        Command::Loop(body).deep_view() == Instruction::Loop(body.deep_view()),
{
    assert(Command::Loop(body).model()->Loop_0 =~= body.deep_view());
}

/// The leaf instruction that a token other than a bracket stands for.
pub open spec fn leaf_of(token: Token) -> Instruction {
    match token {
        Token::IncrementPtr => Instruction::IncrementPtr,
        Token::DecrementPtr => Instruction::DecrementPtr,
        Token::Increment => Instruction::Increment,
        Token::Decrement => Instruction::Decrement,
        Token::Output => Instruction::Output,
        _ => Instruction::Input,
    }
}

/// Depth counting from `from` with `depth` brackets open: the number of
/// tokens that lie before the `]` which closes the outermost open bracket,
/// or before `end` if no such `]` comes.
pub open spec fn enclosed_len(tokens: Seq<Token>, from: int, end: int, depth: nat) -> nat
    decreases end - from,
{
    if from >= end {
        0
    } else {
        match tokens[from] {
            Token::LoopBegin => 1 + enclosed_len(tokens, from + 1, end, depth + 1),
            Token::LoopEnd => if depth <= 1 {
                0
            } else {
                1 + enclosed_len(tokens, from + 1, end, (depth - 1) as nat)
            },
            _ => 1 + enclosed_len(tokens, from + 1, end, depth),
        }
    }
}

/// Puts the instructions `front` before a parse result.
pub open spec fn prepend(
    front: Seq<Instruction>,
    rest: Result<Seq<Instruction>, ParseError>,
) -> Result<Seq<Instruction>, ParseError> {
    match rest {
        Ok(instructions) => Ok(front + instructions),
        Err(error) => Err(error),
    }
}

/// The parse of the tokens at indices `start..end`.
///
/// A token other than a bracket is its leaf instruction. A `[` is matched,
/// by depth counting, with the `]` that brings the depth back to zero; the
/// tokens strictly between the two are parsed by the same rule and become
/// the body of one loop. A `]` met at depth zero is an error at its index,
/// and a `[` that is not closed before `end` is an error at its index.
pub open spec fn parse_span(tokens: Seq<Token>, start: int, end: int) -> Result<
    Seq<Instruction>,
    ParseError,
>
    decreases end - start,
{
    if start >= end {
        Ok(Seq::empty())
    } else {
        match tokens[start] {
            Token::LoopEnd => Err(ParseError::UnmatchedCloseBracket(start as usize)),
            Token::LoopBegin => {
                let close = start + 1 + enclosed_len(tokens, start + 1, end, 1);
                if close >= end {
                    Err(ParseError::UnmatchedOpenBracket(start as usize))
                } else {
                    match parse_span(tokens, start + 1, close) {
                        Ok(body) => prepend(
                            seq![Instruction::Loop(body)],
                            parse_span(tokens, close + 1, end),
                        ),
                        Err(error) => Err(error),
                    }
                }
            },
            token => prepend(seq![leaf_of(token)], parse_span(tokens, start + 1, end)),
        }
    }
}

/// The parse of a whole token sequence.
pub open spec fn parse(tokens: Seq<Token>) -> Result<Seq<Instruction>, ParseError> {
    parse_span(tokens, 0, tokens.len() as int)
}

/// The model of a parser's answer.
pub open spec fn parsed_model(result: Result<Vec<Command>, ParseError>) -> Result<
    Seq<Instruction>,
    ParseError,
> {
    match result {
        Ok(commands) => Ok(commands.deep_view()),
        Err(error) => Err(error),
    }
}

impl Command {
    /// Parses the tokens at indices `start..end` in one pass from left to
    /// right, with a depth counter and the index of the bracket that opened
    /// the loop being skipped over.
    fn parse_range(tokens: &Vec<Token>, start: usize, end: usize) -> (result: Result<
        Vec<Command>,
        ParseError,
    >)
        requires
            start <= end <= tokens.len(),
        ensures
            parsed_model(result) == parse_span(tokens@, start as int, end as int),
        decreases end - start,
    {
        let mut commands: Vec<Command> = Vec::new();
        let mut loop_depth: usize = 0;
        let mut loop_start: usize = start;
        let mut index: usize = start;
        while index < end
            invariant
                start <= index <= end <= tokens.len(),
                loop_depth == 0 ==> parse_span(tokens@, start as int, end as int) == prepend(
                    commands.deep_view(),
                    parse_span(tokens@, index as int, end as int),
                ),
                loop_depth > 0 ==> {
                    &&& start <= loop_start < index
                    &&& loop_depth <= index - loop_start
                    &&& tokens[loop_start as int] == Token::LoopBegin
                    &&& parse_span(tokens@, start as int, end as int) == prepend(
                        commands.deep_view(),
                        parse_span(tokens@, loop_start as int, end as int),
                    )
                    &&& loop_start + 1 + enclosed_len(tokens@, loop_start + 1, end as int, 1)
                        == index + enclosed_len(tokens@, index as int, end as int, loop_depth as nat)
                },
            decreases end - index,
        {
            let token = tokens[index];
            let ghost before = commands.deep_view();
            if loop_depth == 0 {
                match token {
                    Token::LoopBegin => {
                        loop_depth = 1;
                        loop_start = index;
                    },
                    Token::LoopEnd => {
                        return Err(ParseError::UnmatchedCloseBracket(index));
                    },
                    Token::IncrementPtr => {
                        commands.push(Command::IncrementPtr);
                    },
                    Token::DecrementPtr => {
                        commands.push(Command::DecrementPtr);
                    },
                    Token::Increment => {
                        commands.push(Command::Increment);
                    },
                    Token::Decrement => {
                        commands.push(Command::Decrement);
                    },
                    Token::Output => {
                        commands.push(Command::Output);
                    },
                    Token::Input => {
                        commands.push(Command::Input);
                    },
                }
                proof {
                    if loop_depth == 0 {
                        assert(commands.deep_view() =~= before.push(leaf_of(token)));
                        assert(before + (seq![leaf_of(token)] + parse_span(
                            tokens@,
                            index + 1,
                            end as int,
                        )->Ok_0) =~= before.push(leaf_of(token)) + parse_span(
                            tokens@,
                            index + 1,
                            end as int,
                        )->Ok_0);
                    }
                }
            } else {
                match token {
                    Token::LoopBegin => {
                        loop_depth += 1;
                    },
                    Token::LoopEnd => {
                        loop_depth -= 1;
                        if loop_depth == 0 {
                            match Command::parse_range(tokens, loop_start + 1, index) {
                                Ok(body) => {
                                    proof {
                                        lemma_loop_model(body);
                                    }
                                    let ghost inner = body.deep_view();
                                    commands.push(Command::Loop(body));
                                    proof {
                                        assert(commands.deep_view() =~= before.push(
                                            Instruction::Loop(inner),
                                        ));
                                        assert(before + (seq![Instruction::Loop(inner)]
                                            + parse_span(tokens@, index + 1, end as int)->Ok_0)
                                            =~= before.push(Instruction::Loop(inner)) + parse_span(
                                            tokens@,
                                            index + 1,
                                            end as int,
                                        )->Ok_0);
                                    }
                                },
                                Err(error) => {
                                    return Err(error);
                                },
                            }
                        }
                    },
                    _ => {},
                }
            }
            index += 1;
        }
        if loop_depth != 0 {
            return Err(ParseError::UnmatchedOpenBracket(loop_start));
        }
        proof {
            assert(commands.deep_view() + Seq::<Instruction>::empty() =~= commands.deep_view());
        }
        Ok(commands)
    }

    /// Parses a token sequence into the program it denotes, or reports the
    /// first bracket that has no partner.
    pub fn parse_command(tokens: Vec<Token>) -> (result: Result<Vec<Command>, ParseError>)
        ensures
            parsed_model(result) == parse(tokens@),
    {
        Command::parse_range(&tokens, 0, tokens.len())
    }
}

} // verus!
