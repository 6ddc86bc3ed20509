//! What holds of parsing: how it treats balanced regions, and that it
//! inverts the writing-out of a tree as tokens.

use vstd::prelude::*;
use crate::command::{enclosed_len, leaf_of, parse, parse_span, prepend, Instruction, ParseError};
use crate::token::Token;

verus! {

/// The tokens that an instruction is written as.
pub open spec fn unparse_one(instruction: Instruction) -> Seq<Token>
    decreases instruction,
{
    match instruction {
        Instruction::IncrementPtr => seq![Token::IncrementPtr],
        Instruction::DecrementPtr => seq![Token::DecrementPtr],
        Instruction::Increment => seq![Token::Increment],
        Instruction::Decrement => seq![Token::Decrement],
        Instruction::Output => seq![Token::Output],
        Instruction::Input => seq![Token::Input],
        Instruction::Loop(body) => seq![Token::LoopBegin] + unparse(body) + seq![Token::LoopEnd],
    }
}

/// The tokens that a sequence of instructions is written as: a loop is its
/// body between a `[` and a `]`.
pub open spec fn unparse(instructions: Seq<Instruction>) -> Seq<Token>
    decreases instructions,
{
    if instructions.len() == 0 {
        Seq::empty()
    } else {
        unparse(instructions.drop_last()) + unparse_one(instructions.last())
    }
}

/// Whether a token is one of the two brackets.
pub open spec fn is_bracket(token: Token) -> bool {
    token == Token::LoopBegin || token == Token::LoopEnd
}

proof fn lemma_prepend_assoc(
    a: Seq<Instruction>,
    b: Seq<Instruction>,
    rest: Result<Seq<Instruction>, ParseError>,
)
    ensures
        prepend(a, prepend(b, rest)) == prepend(a + b, rest),
{
    if let Ok(instructions) = rest {
        assert(a + (b + instructions) =~= (a + b) + instructions);
    }
}

/// Depth counting stops at a `]` or at the end of the span.
pub proof fn lemma_enclosed_bound(tokens: Seq<Token>, from: int, end: int, depth: nat)
    requires
        from <= end,
    ensures
        from + enclosed_len(tokens, from, end, depth) <= end,
        from + enclosed_len(tokens, from, end, depth) < end ==> tokens[from + enclosed_len(
            tokens,
            from,
            end,
            depth,
        )] == Token::LoopEnd,
    decreases end - from,
{
    if from < end {
        match tokens[from] {
            Token::LoopBegin => lemma_enclosed_bound(tokens, from + 1, end, depth + 1),
            Token::LoopEnd => if depth > 1 {
                lemma_enclosed_bound(tokens, from + 1, end, (depth - 1) as nat);
            },
            _ => lemma_enclosed_bound(tokens, from + 1, end, depth),
        }
    }
}

/// A closing bracket found within a span is found in every longer span.
proof fn lemma_enclosed_extend(tokens: Seq<Token>, from: int, mid: int, end: int, depth: nat)
    requires
        from <= mid <= end,
        from + enclosed_len(tokens, from, mid, depth) < mid,
    ensures
        enclosed_len(tokens, from, end, depth) == enclosed_len(tokens, from, mid, depth),
    decreases mid - from,
{
    if from < mid {
        match tokens[from] {
            Token::LoopBegin => lemma_enclosed_extend(tokens, from + 1, mid, end, depth + 1),
            Token::LoopEnd => if depth > 1 {
                lemma_enclosed_extend(tokens, from + 1, mid, end, (depth - 1) as nat);
            },
            _ => lemma_enclosed_extend(tokens, from + 1, mid, end, depth),
        }
    }
}

/// Depth counting passes over a span that parses, at the depth it came with.
proof fn lemma_enclosed_skips_parsed(tokens: Seq<Token>, start: int, mid: int, end: int, depth: nat)
    requires
        start <= mid <= end,
        depth >= 1,
        parse_span(tokens, start, mid) is Ok,
    ensures
        enclosed_len(tokens, start, end, depth) == (mid - start) + enclosed_len(
            tokens,
            mid,
            end,
            depth,
        ),
    decreases mid - start,
{
    if start < mid {
        match tokens[start] {
            Token::LoopEnd => {},
            Token::LoopBegin => {
                let close = start + 1 + enclosed_len(tokens, start + 1, mid, 1);
                lemma_enclosed_bound(tokens, start + 1, mid, 1);
                lemma_enclosed_skips_parsed(tokens, start + 1, close, end, depth + 1);
                lemma_enclosed_skips_parsed(tokens, close + 1, mid, end, depth);
            },
            _ => lemma_enclosed_skips_parsed(tokens, start + 1, mid, end, depth),
        }
    }
}

/// A span whose front part parses is parsed as that front part followed by
/// the parse of what comes after it.
pub proof fn lemma_parse_span_split(tokens: Seq<Token>, start: int, mid: int, end: int)
    requires
        start <= mid <= end,
        parse_span(tokens, start, mid) is Ok,
    ensures
        parse_span(tokens, start, end) == prepend(
            parse_span(tokens, start, mid)->Ok_0,
            parse_span(tokens, mid, end),
        ),
    decreases mid - start,
{
    let rest = parse_span(tokens, mid, end);
    if start == mid {
        lemma_prepend_assoc(Seq::empty(), Seq::empty(), rest);
        if let Ok(instructions) = rest {
            assert(Seq::<Instruction>::empty() + instructions =~= instructions);
        }
    } else {
        match tokens[start] {
            Token::LoopEnd => {},
            Token::LoopBegin => {
                let close = start + 1 + enclosed_len(tokens, start + 1, mid, 1);
                lemma_enclosed_extend(tokens, start + 1, mid, end, 1);
                lemma_parse_span_split(tokens, close + 1, mid, end);
                lemma_prepend_assoc(
                    seq![Instruction::Loop(parse_span(tokens, start + 1, close)->Ok_0)],
                    parse_span(tokens, close + 1, mid)->Ok_0,
                    rest,
                );
            },
            token => {
                lemma_parse_span_split(tokens, start + 1, mid, end);
                lemma_prepend_assoc(
                    seq![leaf_of(token)],
                    parse_span(tokens, start + 1, mid)->Ok_0,
                    rest,
                );
            },
        }
    }
}

proof fn lemma_subrange_agree(
    a: Seq<Token>,
    a_start: int,
    b: Seq<Token>,
    b_start: int,
    len: int,
    lo: int,
    hi: int,
)
    requires
        0 <= a_start,
        0 <= b_start,
        a_start + len <= a.len(),
        b_start + len <= b.len(),
        0 <= lo <= hi <= len,
        a.subrange(a_start, a_start + len) == b.subrange(b_start, b_start + len),
    ensures
        a.subrange(a_start + lo, a_start + hi) == b.subrange(b_start + lo, b_start + hi),
{
    assert(a.subrange(a_start + lo, a_start + hi) =~= a.subrange(a_start, a_start + len).subrange(
        lo,
        hi,
    ));
    assert(b.subrange(b_start + lo, b_start + hi) =~= b.subrange(b_start, b_start + len).subrange(
        lo,
        hi,
    ));
}

/// Depth counting sees only the tokens of its span.
proof fn lemma_enclosed_agree(
    a: Seq<Token>,
    a_start: int,
    b: Seq<Token>,
    b_start: int,
    len: int,
    depth: nat,
)
    requires
        0 <= a_start,
        0 <= b_start,
        0 <= len,
        a_start + len <= a.len(),
        b_start + len <= b.len(),
        a.subrange(a_start, a_start + len) == b.subrange(b_start, b_start + len),
    ensures
        enclosed_len(a, a_start, a_start + len, depth) == enclosed_len(
            b,
            b_start,
            b_start + len,
            depth,
        ),
    decreases len,
{
    if len > 0 {
        assert(a[a_start] == a.subrange(a_start, a_start + len)[0]);
        assert(b[b_start] == b.subrange(b_start, b_start + len)[0]);
        lemma_subrange_agree(a, a_start, b, b_start, len, 1, len);
        match a[a_start] {
            Token::LoopBegin => lemma_enclosed_agree(
                a,
                a_start + 1,
                b,
                b_start + 1,
                len - 1,
                depth + 1,
            ),
            Token::LoopEnd => if depth > 1 {
                lemma_enclosed_agree(a, a_start + 1, b, b_start + 1, len - 1, (depth - 1) as nat);
            },
            _ => lemma_enclosed_agree(a, a_start + 1, b, b_start + 1, len - 1, depth),
        }
    }
}

/// Whether a span parses, and to what, depends on the tokens of the span
/// alone, not on where in a sequence they stand.
pub proof fn lemma_parse_span_agree(
    a: Seq<Token>,
    a_start: int,
    b: Seq<Token>,
    b_start: int,
    len: int,
)
    requires
        0 <= a_start,
        0 <= b_start,
        0 <= len,
        a_start + len <= a.len(),
        b_start + len <= b.len(),
        a.subrange(a_start, a_start + len) == b.subrange(b_start, b_start + len),
    ensures
        parse_span(a, a_start, a_start + len) is Ok <==> parse_span(b, b_start, b_start + len) is Ok,
        parse_span(a, a_start, a_start + len) is Ok ==> parse_span(a, a_start, a_start + len)
            == parse_span(b, b_start, b_start + len),
    decreases len,
{
    if len > 0 {
        assert(a[a_start] == a.subrange(a_start, a_start + len)[0]);
        assert(b[b_start] == b.subrange(b_start, b_start + len)[0]);
        lemma_subrange_agree(a, a_start, b, b_start, len, 1, len);
        match a[a_start] {
            Token::LoopEnd => {},
            Token::LoopBegin => {
                lemma_enclosed_agree(a, a_start + 1, b, b_start + 1, len - 1, 1);
                let inner = enclosed_len(a, a_start + 1, a_start + len, 1) as int;
                if inner + 1 < len {
                    lemma_subrange_agree(a, a_start, b, b_start, len, 1, inner + 1);
                    lemma_subrange_agree(a, a_start, b, b_start, len, inner + 2, len);
                    lemma_parse_span_agree(a, a_start + 1, b, b_start + 1, inner);
                    lemma_parse_span_agree(
                        a,
                        a_start + inner + 2,
                        b,
                        b_start + inner + 2,
                        len - inner - 2,
                    );
                }
            },
            _ => lemma_parse_span_agree(a, a_start + 1, b, b_start + 1, len - 1),
        }
    }
}

/// Two sequences that parse, put together, parse to the two results put
/// together.
pub proof fn lemma_parse_concat(a: Seq<Token>, b: Seq<Token>)
    requires
        parse(a) is Ok,
        parse(b) is Ok,
    ensures
        parse(a + b) == Ok::<Seq<Instruction>, ParseError>(parse(a)->Ok_0 + parse(b)->Ok_0),
{
    let whole = a + b;
    let n = a.len() as int;
    let m = b.len() as int;
    assert(whole.subrange(0, n) =~= a.subrange(0, n));
    assert(whole.subrange(n, n + m) =~= b.subrange(0, m));
    lemma_parse_span_agree(a, 0, whole, 0, n);
    lemma_parse_span_agree(b, 0, whole, n, m);
    lemma_parse_span_split(whole, 0, n, n + m);
}

/// A sequence that parses, put between a `[` and a `]`, parses to exactly
/// one loop, whose body is the parse of that sequence.
pub proof fn lemma_parse_loop(inner: Seq<Token>)
    requires
        parse(inner) is Ok,
    ensures
        parse(seq![Token::LoopBegin] + inner + seq![Token::LoopEnd]) == Ok::<
            Seq<Instruction>,
            ParseError,
        >(seq![Instruction::Loop(parse(inner)->Ok_0)]),
{
    let whole = seq![Token::LoopBegin] + inner + seq![Token::LoopEnd];
    let n = inner.len() as int;
    assert(whole.subrange(1, n + 1) =~= inner.subrange(0, n));
    lemma_parse_span_agree(inner, 0, whole, 1, n);
    lemma_enclosed_skips_parsed(whole, 1, n + 1, n + 2, 1);
    assert(whole[n + 1] == Token::LoopEnd);
    assert(enclosed_len(whole, n + 1, n + 2, 1) == 0);
    assert(parse_span(whole, n + 2, n + 2) == Ok::<Seq<Instruction>, ParseError>(Seq::empty()));
    assert(seq![Instruction::Loop(parse(inner)->Ok_0)] + Seq::<Instruction>::empty()
        =~= seq![Instruction::Loop(parse(inner)->Ok_0)]);
}

/// Every balanced bracket pair becomes exactly one loop: where the tokens
/// before the pair, between its brackets and after it each parse, the whole
/// parses to the parse of what is before, then one loop whose body is the
/// parse of what is between, then the parse of what is after.
pub proof fn lemma_parse_bracket_pair(before: Seq<Token>, inner: Seq<Token>, after: Seq<Token>)
    requires
        parse(before) is Ok,
        parse(inner) is Ok,
        parse(after) is Ok,
    ensures
        parse(before + seq![Token::LoopBegin] + inner + seq![Token::LoopEnd] + after) == Ok::<
            Seq<Instruction>,
            ParseError,
        >(parse(before)->Ok_0 + seq![Instruction::Loop(parse(inner)->Ok_0)] + parse(after)->Ok_0),
{
    let pair = seq![Token::LoopBegin] + inner + seq![Token::LoopEnd];
    lemma_parse_loop(inner);
    lemma_parse_concat(before, pair);
    lemma_parse_concat(before + pair, after);
    assert(before + seq![Token::LoopBegin] + inner + seq![Token::LoopEnd] + after =~= before + pair
        + after);
}

/// A sequence without brackets parses to one leaf instruction per token, in
/// the order of the tokens.
pub proof fn lemma_parse_without_brackets(tokens: Seq<Token>)
    requires
        forall|i: int| 0 <= i < tokens.len() ==> !is_bracket(#[trigger] tokens[i]),
    ensures
        parse(tokens) == Ok::<Seq<Instruction>, ParseError>(
            tokens.map_values(|token: Token| leaf_of(token)),
        ),
{
    lemma_parse_span_without_brackets(tokens, 0);
    assert(tokens.subrange(0, tokens.len() as int) =~= tokens);
}

proof fn lemma_parse_span_without_brackets(tokens: Seq<Token>, start: int)
    requires
        0 <= start <= tokens.len(),
        forall|i: int| 0 <= i < tokens.len() ==> !is_bracket(#[trigger] tokens[i]),
    ensures
        parse_span(tokens, start, tokens.len() as int) == Ok::<Seq<Instruction>, ParseError>(
            tokens.subrange(start, tokens.len() as int).map_values(|token: Token| leaf_of(token)),
        ),
    decreases tokens.len() - start,
{
    let end = tokens.len() as int;
    let leaves = tokens.subrange(start, end).map_values(|token: Token| leaf_of(token));
    if start < end {
        lemma_parse_span_without_brackets(tokens, start + 1);
        assert(!is_bracket(tokens[start]));
        assert(seq![leaf_of(tokens[start])] + tokens.subrange(start + 1, end).map_values(
            |token: Token| leaf_of(token),
        ) =~= leaves);
    } else {
        assert(leaves =~= Seq::empty());
    }
}

/// Writing out goes through concatenation.
pub proof fn lemma_unparse_concat(a: Seq<Instruction>, b: Seq<Instruction>)
    ensures
        unparse(a + b) == unparse(a) + unparse(b),
    decreases b.len(),
{
    if b.len() == 0 {
        assert(a + b =~= a);
        assert(unparse(a) + unparse(b) =~= unparse(a));
    } else {
        lemma_unparse_concat(a, b.drop_last());
        assert((a + b).drop_last() =~= a + b.drop_last());
        assert((a + b).last() == b.last());
        assert(unparse(a + b) =~= unparse(a) + unparse(b));
    }
}

proof fn lemma_unparse_single(instruction: Instruction)
    ensures
        unparse(seq![instruction]) == unparse_one(instruction),
{
    let single = seq![instruction];
    assert(single.drop_last() =~= Seq::empty());
    assert(unparse(single.drop_last()) =~= Seq::empty());
    assert(unparse(single) =~= unparse_one(instruction));
}

proof fn lemma_parse_unparse_one(instruction: Instruction)
    ensures
        parse(unparse_one(instruction)) == Ok::<Seq<Instruction>, ParseError>(seq![instruction]),
    decreases instruction,
{
    match instruction {
        Instruction::Loop(body) => {
            lemma_parse_unparse(body);
            lemma_parse_loop(unparse(body));
        },
        _ => {
            let tokens = unparse_one(instruction);
            assert(parse_span(tokens, 1, 1) == Ok::<Seq<Instruction>, ParseError>(Seq::empty()));
            assert(seq![instruction] + Seq::<Instruction>::empty() =~= seq![instruction]);
        },
    }
}

/// Parsing inverts writing out: the tokens of any tree parse, and they parse
/// to that tree and no other.
pub proof fn lemma_parse_unparse(instructions: Seq<Instruction>)
    ensures
        parse(unparse(instructions)) == Ok::<Seq<Instruction>, ParseError>(instructions),
    decreases instructions,
{
    if instructions.len() > 0 {
        let front = instructions.drop_last();
        let last = instructions.last();
        lemma_parse_unparse(front);
        lemma_parse_unparse_one(last);
        lemma_parse_concat(unparse(front), unparse_one(last));
        assert(front + seq![last] =~= instructions);
    } else {
        assert(instructions =~= Seq::empty());
    }
}

proof fn lemma_unparse_parse_span(tokens: Seq<Token>, start: int, end: int)
    requires
        0 <= start <= end <= tokens.len(),
        parse_span(tokens, start, end) is Ok,
    ensures
        unparse(parse_span(tokens, start, end)->Ok_0) == tokens.subrange(start, end),
    decreases end - start,
{
    if start == end {
        assert(tokens.subrange(start, end) =~= Seq::empty());
    } else {
        match tokens[start] {
            Token::LoopEnd => {},
            Token::LoopBegin => {
                let close = start + 1 + enclosed_len(tokens, start + 1, end, 1);
                let body = parse_span(tokens, start + 1, close)->Ok_0;
                let rest = parse_span(tokens, close + 1, end)->Ok_0;
                lemma_enclosed_bound(tokens, start + 1, end, 1);
                lemma_unparse_parse_span(tokens, start + 1, close);
                lemma_unparse_parse_span(tokens, close + 1, end);
                lemma_unparse_concat(seq![Instruction::Loop(body)], rest);
                lemma_unparse_single(Instruction::Loop(body));
                assert(seq![Token::LoopBegin] + tokens.subrange(start + 1, close)
                    + seq![Token::LoopEnd] + tokens.subrange(close + 1, end) =~= tokens.subrange(
                    start,
                    end,
                ));
            },
            token => {
                let rest = parse_span(tokens, start + 1, end)->Ok_0;
                lemma_unparse_parse_span(tokens, start + 1, end);
                lemma_unparse_concat(seq![leaf_of(token)], rest);
                lemma_unparse_single(leaf_of(token));
                assert(seq![token] + tokens.subrange(start + 1, end) =~= tokens.subrange(
                    start,
                    end,
                ));
            },
        }
    }
}

/// Writing out inverts parsing: a tree that a token sequence parses to is
/// written as exactly that sequence.
pub proof fn lemma_unparse_parse(tokens: Seq<Token>)
    requires
        parse(tokens) is Ok,
    ensures
        unparse(parse(tokens)->Ok_0) == tokens,
{
    lemma_unparse_parse_span(tokens, 0, tokens.len() as int);
    assert(tokens.subrange(0, tokens.len() as int) =~= tokens);
}

/// What a token adds to the nesting depth.
pub open spec fn depth_change(token: Token) -> int {
    match token {
        Token::LoopBegin => 1,
        Token::LoopEnd => -1,
        _ => 0,
    }
}

/// The nesting depth after the first `n` tokens: the number of `[` among
/// them less the number of `]`.
pub open spec fn depth_at(tokens: Seq<Token>, n: int) -> int
    decreases n,
{
    if n <= 0 {
        0
    } else {
        depth_at(tokens, n - 1) + depth_change(tokens[n - 1])
    }
}

/// The depth never goes below zero and ends at zero.
pub open spec fn balanced(tokens: Seq<Token>) -> bool {
    &&& forall|n: int| 0 <= n <= tokens.len() ==> #[trigger] depth_at(tokens, n) >= 0
    &&& depth_at(tokens, tokens.len() as int) == 0
}

/// The token at `p` is the first `]` met at depth zero.
pub open spec fn unmatched_close_at(tokens: Seq<Token>, p: int) -> bool {
    &&& 0 <= p < tokens.len()
    &&& tokens[p] == Token::LoopEnd
    &&& depth_at(tokens, p) == 0
    &&& forall|n: int| 0 <= n <= p ==> #[trigger] depth_at(tokens, n) >= 0
}

/// No `]` is met at depth zero, and the token at `p` is the outermost `[`
/// still open at the end: it is met at depth zero, and the depth never comes
/// back to zero after it.
pub open spec fn unmatched_open_at(tokens: Seq<Token>, p: int) -> bool {
    &&& 0 <= p < tokens.len()
    &&& tokens[p] == Token::LoopBegin
    &&& depth_at(tokens, p) == 0
    &&& forall|n: int| 0 <= n <= p ==> #[trigger] depth_at(tokens, n) >= 0
    &&& forall|n: int| p < n <= tokens.len() ==> #[trigger] depth_at(tokens, n) > 0
}

/// While depth counting runs the depth stays above zero, and the `]` that
/// it stops at brings the depth to zero.
proof fn lemma_enclosed_depth(tokens: Seq<Token>, from: int, end: int, depth: nat)
    requires
        0 <= from <= end <= tokens.len(),
        depth >= 1,
    ensures
        forall|n: int|
            from <= n <= from + enclosed_len(tokens, from, end, depth) ==> #[trigger] depth_at(
                tokens,
                n,
            ) - depth_at(tokens, from) + depth >= 1,
        from + enclosed_len(tokens, from, end, depth) < end ==> depth_at(
            tokens,
            from + enclosed_len(tokens, from, end, depth) + 1,
        ) - depth_at(tokens, from) + depth == 0,
    decreases end - from,
{
    if from < end {
        assert(depth_at(tokens, from + 1) == depth_at(tokens, from) + depth_change(tokens[from]));
        match tokens[from] {
            Token::LoopBegin => lemma_enclosed_depth(tokens, from + 1, end, depth + 1),
            Token::LoopEnd => if depth > 1 {
                lemma_enclosed_depth(tokens, from + 1, end, (depth - 1) as nat);
            },
            _ => lemma_enclosed_depth(tokens, from + 1, end, depth),
        }
    }
}

/// The outcome of parsing a span, told by the depth within the span.
proof fn lemma_parse_span_depth(tokens: Seq<Token>, start: int, end: int)
    requires
        0 <= start <= end <= tokens.len(),
        tokens.len() <= usize::MAX,
    ensures
        match parse_span(tokens, start, end) {
            Ok(_) => {
                &&& forall|n: int|
                    start <= n <= end ==> #[trigger] depth_at(tokens, n) >= depth_at(tokens, start)
                &&& depth_at(tokens, end) == depth_at(tokens, start)
            },
            Err(ParseError::UnmatchedCloseBracket(p)) => {
                &&& start <= p < end
                &&& tokens[p as int] == Token::LoopEnd
                &&& depth_at(tokens, p as int) == depth_at(tokens, start)
                &&& forall|n: int|
                    start <= n <= p ==> #[trigger] depth_at(tokens, n) >= depth_at(tokens, start)
            },
            Err(ParseError::UnmatchedOpenBracket(p)) => {
                &&& start <= p < end
                &&& tokens[p as int] == Token::LoopBegin
                &&& depth_at(tokens, p as int) == depth_at(tokens, start)
                &&& forall|n: int|
                    start <= n <= p ==> #[trigger] depth_at(tokens, n) >= depth_at(tokens, start)
                &&& forall|n: int|
                    p < n <= end ==> #[trigger] depth_at(tokens, n) > depth_at(tokens, start)
            },
        },
    decreases end - start,
{
    if start < end {
        assert(depth_at(tokens, start + 1) == depth_at(tokens, start) + depth_change(
            tokens[start],
        ));
        match tokens[start] {
            Token::LoopEnd => {},
            Token::LoopBegin => {
                let close = start + 1 + enclosed_len(tokens, start + 1, end, 1);
                lemma_enclosed_bound(tokens, start + 1, end, 1);
                lemma_enclosed_depth(tokens, start + 1, end, 1);
                if close < end {
                    assert(depth_at(tokens, close + 1) == depth_at(tokens, close) + depth_change(
                        tokens[close],
                    ));
                    assert(depth_at(tokens, close) == depth_at(tokens, start) + 1);
                    lemma_parse_span_depth(tokens, start + 1, close);
                    match parse_span(tokens, start + 1, close) {
                        Ok(_) => {
                            lemma_parse_span_depth(tokens, close + 1, end);
                        },
                        Err(ParseError::UnmatchedCloseBracket(p)) => {
                            assert(depth_at(tokens, p + 1) == depth_at(tokens, p as int)
                                + depth_change(tokens[p as int]));
                            assert(false);
                        },
                        Err(ParseError::UnmatchedOpenBracket(p)) => {
                            assert(depth_at(tokens, close) > depth_at(tokens, start + 1));
                            assert(false);
                        },
                    }
                }
            },
            _ => lemma_parse_span_depth(tokens, start + 1, end),
        }
    }
}

/// When parsing succeeds and when it fails, told by depth counting alone: it
/// succeeds exactly on balanced sequences; it reports a `]` exactly where
/// the first `]` at depth zero stands; and it reports a `[` exactly where
/// the outermost `[` that is never closed stands, if no `]` came at depth
/// zero.
pub proof fn lemma_parse_outcome(tokens: Seq<Token>)
    requires
        tokens.len() <= usize::MAX,
    ensures
        parse(tokens) is Ok <==> balanced(tokens),
        forall|p: usize|
            parse(tokens) == Err::<Seq<Instruction>, ParseError>(
                ParseError::UnmatchedCloseBracket(p),
            ) <==> #[trigger] unmatched_close_at(tokens, p as int),
        forall|p: usize|
            parse(tokens) == Err::<Seq<Instruction>, ParseError>(
                ParseError::UnmatchedOpenBracket(p),
            ) <==> #[trigger] unmatched_open_at(tokens, p as int),
{
    let len = tokens.len() as int;
    lemma_parse_span_depth(tokens, 0, len);
    assert forall|p: usize| #[trigger] unmatched_close_at(tokens, p as int) implies parse(tokens)
        == Err::<Seq<Instruction>, ParseError>(ParseError::UnmatchedCloseBracket(p)) by {
        lemma_close_excludes(tokens, p as int);
        match parse(tokens) {
            Err(ParseError::UnmatchedCloseBracket(q)) => {
                lemma_close_unique(tokens, p as int, q as int);
            },
            _ => {},
        }
    }
    assert forall|p: usize| #[trigger] unmatched_open_at(tokens, p as int) implies parse(tokens)
        == Err::<Seq<Instruction>, ParseError>(ParseError::UnmatchedOpenBracket(p)) by {
        lemma_open_excludes(tokens, p as int);
        match parse(tokens) {
            Err(ParseError::UnmatchedOpenBracket(q)) => {
                lemma_open_unique(tokens, p as int, q as int);
            },
            Err(ParseError::UnmatchedCloseBracket(q)) => {
                lemma_close_excludes(tokens, q as int);
            },
            _ => {},
        }
    }
    if balanced(tokens) {
        match parse(tokens) {
            Err(ParseError::UnmatchedCloseBracket(q)) => {
                lemma_close_excludes(tokens, q as int);
            },
            Err(ParseError::UnmatchedOpenBracket(q)) => {
                lemma_open_excludes(tokens, q as int);
            },
            _ => {},
        }
    }
}

/// With a `]` at depth zero the sequence is not balanced, and no `[` is the
/// outermost one left open.
proof fn lemma_close_excludes(tokens: Seq<Token>, p: int)
    requires
        unmatched_close_at(tokens, p),
    ensures
        !balanced(tokens),
        forall|q: int| !unmatched_open_at(tokens, q),
        depth_at(tokens, p + 1) == -1,
{
    assert(depth_at(tokens, p + 1) == depth_at(tokens, p) + depth_change(tokens[p]));
}

/// With a `[` left open the sequence is not balanced.
proof fn lemma_open_excludes(tokens: Seq<Token>, p: int)
    requires
        unmatched_open_at(tokens, p),
    ensures
        !balanced(tokens),
{
    assert(depth_at(tokens, tokens.len() as int) > 0);
}

/// There is one first `]` at depth zero at most.
proof fn lemma_close_unique(tokens: Seq<Token>, p: int, q: int)
    requires
        unmatched_close_at(tokens, p),
        unmatched_close_at(tokens, q),
    ensures
        p == q,
{
    lemma_close_excludes(tokens, p);
    lemma_close_excludes(tokens, q);
}

/// There is one outermost `[` left open at most.
proof fn lemma_open_unique(tokens: Seq<Token>, p: int, q: int)
    requires
        unmatched_open_at(tokens, p),
        unmatched_open_at(tokens, q),
    ensures
        p == q,
{
    if p < q {
        assert(depth_at(tokens, q) > 0);
    } else if q < p {
        assert(depth_at(tokens, p) > 0);
    }
}

} // verus!
