//! Lexing: from source text to the sequence of recognised symbols.

use vstd::prelude::*;

verus! {

/// One of the eight recognised symbols of the language.
#[derive(Clone, Copy, Debug, PartialEq, Eq)]
pub enum Token {
    /// `>`
    IncrementPtr,
    /// `<`
    DecrementPtr,
    /// `+`
    Increment,
    /// `-`
    Decrement,
    /// `.`
    Output,
    /// `,`
    Input,
    /// `[`
    LoopBegin,
    /// `]`
    LoopEnd,
}

/// The token that a character stands for, if it is one of the eight symbols.
pub open spec fn token_of(c: char) -> Option<Token> {
    if c == '>' {
        Some(Token::IncrementPtr)
    } else if c == '<' {
        Some(Token::DecrementPtr)
    } else if c == '+' {
        Some(Token::Increment)
    } else if c == '-' {
        Some(Token::Decrement)
    } else if c == '.' {
        Some(Token::Output)
    } else if c == ',' {
        Some(Token::Input)
    } else if c == '[' {
        Some(Token::LoopBegin)
    } else if c == ']' {
        Some(Token::LoopEnd)
    } else {
        None
    }
}

/// The tokens of a text: every recognised character mapped to its token, in
/// order, every other character dropped.
pub open spec fn lex(source: Seq<char>) -> Seq<Token>
    decreases source.len(),
{
    if source.len() == 0 {
        Seq::empty()
    } else {
        let front = lex(source.drop_last());
        match token_of(source.last()) {
            Some(token) => front.push(token),
            None => front,
        }
    }
}

/// The canonical text of a token sequence: each token written as its symbol.
pub open spec fn render(tokens: Seq<Token>) -> Seq<char> {
    tokens.map_values(|token: Token| token.spec_symbol())
}

/// Lexing goes through concatenation: the tokens of two texts put together
/// are the tokens of the first followed by the tokens of the second.
pub proof fn lemma_lex_concat(a: Seq<char>, b: Seq<char>)
    ensures
        lex(a + b) == lex(a) + lex(b),
    decreases b.len(),
{
    if b.len() == 0 {
        assert(a + b =~= a);
        assert(lex(a) + lex(b) =~= lex(a));
    } else {
        lemma_lex_concat(a, b.drop_last());
        assert((a + b).drop_last() =~= a + b.drop_last());
        assert((a + b).last() == b.last());
        assert(lex(a + b) =~= lex(a) + lex(b));
    }
}

/// Lexing the canonical text of a token sequence gives that sequence back.
pub proof fn lemma_lex_render(tokens: Seq<Token>)
    ensures
        lex(render(tokens)) == tokens,
    decreases tokens.len(),
{
    if tokens.len() == 0 {
        assert(lex(render(tokens)) =~= tokens);
    } else {
        lemma_lex_render(tokens.drop_last());
        assert(render(tokens).drop_last() =~= render(tokens.drop_last()));
        assert(token_of(tokens.last().spec_symbol()) == Some(tokens.last()));
        assert(tokens.drop_last().push(tokens.last()) =~= tokens);
    }
}

/// Lexing is idempotent under re-serialization: writing the tokens of a text
/// out in canonical form and lexing that again changes nothing.
pub proof fn lemma_lex_idempotent(source: Seq<char>)
    ensures
        lex(render(lex(source))) == lex(source),
{
    lemma_lex_render(lex(source));
}

impl Token {
    /// The character that this token is written as.
    pub open spec fn spec_symbol(self) -> char {
        match self {
            Token::IncrementPtr => '>',
            Token::DecrementPtr => '<',
            Token::Increment => '+',
            Token::Decrement => '-',
            Token::Output => '.',
            Token::Input => ',',
            Token::LoopBegin => '[',
            Token::LoopEnd => ']',
        }
    }

    /// The character that this token is written as.
    #[verifier::when_used_as_spec(spec_symbol)]
    pub fn symbol(self) -> (c: char)
        ensures
            c == self.spec_symbol(),
    {
        match self {
            Token::IncrementPtr => '>',
            Token::DecrementPtr => '<',
            Token::Increment => '+',
            Token::Decrement => '-',
            Token::Output => '.',
            Token::Input => ',',
            Token::LoopBegin => '[',
            Token::LoopEnd => ']',
        }
    }

    /// Recognises one character.
    pub fn from_char(c: char) -> (token: Option<Token>)
        ensures
            token == token_of(c),
    {
        match c {
            '>' => Some(Token::IncrementPtr),
            '<' => Some(Token::DecrementPtr),
            '+' => Some(Token::Increment),
            '-' => Some(Token::Decrement),
            '.' => Some(Token::Output),
            ',' => Some(Token::Input),
            '[' => Some(Token::LoopBegin),
            ']' => Some(Token::LoopEnd),
            _ => None,
        }
    }

    /// Scans `source` from left to right and returns its tokens. Lexing
    /// cannot fail: unrecognised characters are skipped.
    pub fn tokenization(source: &str) -> (tokens: Vec<Token>)
        ensures
            tokens@ == lex(source@),
    {
        let mut tokens: Vec<Token> = Vec::new();
        for c in it: source.chars()
            invariant
                it.seq() == source@,
                tokens@ == lex(source@.take(it.index() as int)),
        {
            proof {
                let n = it.index() as int;
                assert(source@.take(n + 1).drop_last() =~= source@.take(n));
                assert(source@.take(n + 1).last() == c);
            }
            match Token::from_char(c) {
                Some(token) => tokens.push(token),
                None => {},
            }
        }
        proof {
            assert(source@.take(source@.len() as int) =~= source@);
        }
        tokens
    }
}

} // verus!
