//! Resolves symbols into folded instructions, and matches branches with
//! returns.

use vstd::prelude::*;
use crate::lexer::Token;
use crate::table::{has_right, pairs_of, table_contains_right, table_insert, table_new, Table};
use crate::text::{decimal, push_decimal, text};

verus! {

/// An executable instruction. The four movement and arithmetic kinds carry
/// how many identical symbols in a row they stand for; every instruction
/// carries the symbol it came from (the first of its run).
#[derive(Debug, Clone, Copy, PartialEq, Eq, Structural)]
pub enum Instruction {
    MoveRight(usize, Token),
    MoveLeft(usize, Token),
    Increment(usize, Token),
    Decrement(usize, Token),
    Output(Token),
    Input(Token),
    Branch(Token),
    Return(Token),
    Jump(Token),
    Restore(Token),
    Alloc(Token),
}

impl Instruction {
    /// The symbol the instruction came from.
    pub open spec fn origin(&self) -> Token {
        match *self {
            Instruction::MoveRight(_, t) => t,
            Instruction::MoveLeft(_, t) => t,
            Instruction::Increment(_, t) => t,
            Instruction::Decrement(_, t) => t,
            Instruction::Output(t) => t,
            Instruction::Input(t) => t,
            Instruction::Branch(t) => t,
            Instruction::Return(t) => t,
            Instruction::Jump(t) => t,
            Instruction::Restore(t) => t,
            Instruction::Alloc(t) => t,
        }
    }
}

/// Whether runs of symbols like `t` are folded into one instruction.
pub open spec fn is_foldable(t: Token) -> bool {
    t is MoveRight || t is MoveLeft || t is Increment || t is Decrement
}

/// The instruction for symbol `t` standing for a run of `n` symbols (`n` is
/// ignored for the kinds that are never folded).
pub open spec fn instruction_of(t: Token, n: usize) -> Instruction {
    match t {
        Token::MoveRight(..) => Instruction::MoveRight(n, t),
        Token::MoveLeft(..) => Instruction::MoveLeft(n, t),
        Token::Increment(..) => Instruction::Increment(n, t),
        Token::Decrement(..) => Instruction::Decrement(n, t),
        Token::Output(..) => Instruction::Output(t),
        Token::Input(..) => Instruction::Input(t),
        Token::Branch(..) => Instruction::Branch(t),
        Token::Return(..) => Instruction::Return(t),
        Token::Jump(..) => Instruction::Jump(t),
        Token::Restore(..) => Instruction::Restore(t),
        Token::Alloc(..) => Instruction::Alloc(t),
        Token::Nop(..) => Instruction::Output(t),
    }
}

/// How many symbols right after `s[i]` are of its kind, without a break.
pub open spec fn run_tail(s: Seq<Token>, i: int) -> nat
    decreases s.len() - i,
{
    if i + 1 < s.len() && s[i + 1].spec_same_kind(&s[i]) {
        1 + run_tail(s, i + 1)
    } else {
        0
    }
}

/// The length of the maximal run of symbols of one kind that starts at `i`.
pub open spec fn run_length(s: Seq<Token>, i: int) -> nat {
    1 + run_tail(s, i)
}

/// The instructions that `s[i..]` resolves to, when it holds no `Nop`: each
/// maximal run of one foldable kind becomes one instruction carrying the
/// run's length, every other symbol one instruction of its own.
pub open spec fn resolved(s: Seq<Token>, i: int) -> Seq<Instruction>
    decreases s.len() - i
    via resolved_decreases
{
    if i < 0 || i >= s.len() {
        seq![]
    } else if is_foldable(s[i]) {
        let k = 1 + run_tail(s, i);
        seq![instruction_of(s[i], k as usize)] + resolved(s, i + k)
    } else {
        seq![instruction_of(s[i], 1)] + resolved(s, i + 1)
    }
}

proof fn lemma_run_tail_bound(s: Seq<Token>, i: int)
    requires
        0 <= i < s.len(),
    ensures
        i + run_tail(s, i) < s.len(),
    decreases s.len() - i,
{
    if i + 1 < s.len() && s[i + 1].spec_same_kind(&s[i]) {
        lemma_run_tail_bound(s, i + 1);
    }
}

#[via_fn]
proof fn resolved_decreases(s: Seq<Token>, i: int) {
    if 0 <= i < s.len() {
        lemma_run_tail_bound(s, i);
    }
}

/// The message of the error for a `Nop` symbol at (`line`, `col`).
pub open spec fn nop_message(line: usize, col: usize) -> Seq<char> {
    "Unexpected token Nop("@ + decimal(line as nat) + ", "@ + decimal(col as nat) + ") encountered"@
}

/// Whether `tokens` holds no `Nop`.
pub open spec fn nop_free(tokens: Seq<Token>) -> bool {
    forall|i: int| 0 <= i < tokens.len() ==> !(tokens[i] is Nop)
}

/// Whether `e` is the error for the first `Nop` of `tokens`.
pub open spec fn is_nop_error(tokens: Seq<Token>, e: (String, usize, usize)) -> bool {
    exists|i: int|
        0 <= i < tokens.len() && tokens[i] is Nop
        && (forall|j: int| 0 <= j < i ==> !(tokens[j] is Nop))
        && (e.1, e.2) == tokens[i].spec_position()
        && e.0@ == nop_message(e.1, e.2)
}

/// A run of one kind that ends at `j` has length `j - i`.
pub proof fn lemma_run_length(s: Seq<Token>, i: int, j: int)
    requires
        0 <= i < j <= s.len(),
        forall|m: int| i <= m < j ==> s[m].spec_same_kind(&s[i]),
        j == s.len() || !s[j].spec_same_kind(&s[i]),
    ensures
        run_length(s, i) == j - i,
    decreases j - i,
{
    if i + 1 < j {
        assert(s[i + 1].spec_same_kind(&s[i]));
        lemma_run_length(s, i + 1, j);
    }
}

fn nop_error(line: usize, col: usize) -> (r: (String, usize, usize))
    ensures
        r.0@ == nop_message(line, col),
        r.1 == line,
        r.2 == col,
{
    let mut msg = text("Unexpected token Nop(");
    push_decimal(&mut msg, line);
    msg.append(", ");
    push_decimal(&mut msg, col);
    msg.append(") encountered");
    (msg, line, col)
}

/// Resolves `tokens` into instructions. Each maximal run of identical
/// movement or arithmetic symbols becomes one instruction carrying the run's
/// length and its first symbol; every other symbol becomes one instruction.
/// A `Nop` symbol is an error at its position, and the first one decides.
pub fn parse(tokens: Vec<Token>) -> (r: Result<Vec<Instruction>, (String, usize, usize)>)
    ensures
        match r {
            Ok(instr) => nop_free(tokens@) && instr@ == resolved(tokens@, 0),
            Err(e) => is_nop_error(tokens@, e),
        },
{
    let mut instr: Vec<Instruction> = Vec::new();
    let mut idx: usize = 0;
    while idx < tokens.len()
        invariant
            idx <= tokens@.len(),
            forall|j: int| 0 <= j < idx ==> !(tokens@[j] is Nop),
            resolved(tokens@, 0) == instr@ + resolved(tokens@, idx as int),
        decreases tokens@.len() - idx,
    {
        let token = tokens[idx];
        match token {
            Token::Nop(line, character) => {
                return Err(nop_error(line, character));
            },
            Token::MoveRight(..) | Token::MoveLeft(..) | Token::Increment(..) | Token::Decrement(..) => {
                let mut end: usize = idx + 1;
                while end < tokens.len() && tokens[end].same_kind(&token)
                    invariant
                        idx < end <= tokens@.len(),
                        token == tokens@[idx as int],
                        forall|m: int| idx <= m < end ==> tokens@[m].spec_same_kind(&token),
                    decreases tokens@.len() - end,
                {
                    end += 1;
                }
                proof {
                    lemma_run_length(tokens@, idx as int, end as int);
                }
                let count = end - idx;
                let folded = match token {
                    Token::MoveRight(..) => Instruction::MoveRight(count, token),
                    Token::MoveLeft(..) => Instruction::MoveLeft(count, token),
                    Token::Increment(..) => Instruction::Increment(count, token),
                    _ => Instruction::Decrement(count, token),
                };
                proof {
                    assert(forall|m: int| idx <= m < end ==> !(tokens@[m] is Nop));
                }
                instr.push(folded);
                idx = end;
            },
            _ => {
                let single = match token {
                    Token::Output(..) => Instruction::Output(token),
                    Token::Input(..) => Instruction::Input(token),
                    Token::Branch(..) => Instruction::Branch(token),
                    Token::Return(..) => Instruction::Return(token),
                    Token::Jump(..) => Instruction::Jump(token),
                    Token::Restore(..) => Instruction::Restore(token),
                    _ => Instruction::Alloc(token),
                };
                instr.push(single);
                idx += 1;
            },
        }
    }
    Ok(instr)
}

/// How an instruction changes the nesting depth: up for a branch, down for a
/// return.
pub open spec fn nesting_step(i: Instruction) -> int {
    if i is Branch {
        1
    } else if i is Return {
        -1
    } else {
        0
    }
}

/// The nesting depth before position `n`: branches minus returns in `s[..n]`.
pub open spec fn depth(s: Seq<Instruction>, n: int) -> int
    decreases n,
{
    if n <= 0 {
        0
    } else {
        depth(s, n - 1) + nesting_step(s[n - 1])
    }
}

/// Whether the branch at `open` is matched by the return at `close`: the
/// segment `s[open..=close]` brings the depth back to where it started and
/// stays above it until then.
pub open spec fn is_match(s: Seq<Instruction>, open: int, close: int) -> bool {
    &&& 0 <= open < close < s.len()
    &&& s[open] is Branch
    &&& s[close] is Return
    &&& depth(s, close + 1) == depth(s, open)
    &&& forall|j: int| open < j <= close ==> depth(s, j) > depth(s, open)
}

/// Whether position `p` holds a branch without a matching return, or a
/// return without a matching branch.
pub open spec fn is_unmatched(s: Seq<Instruction>, p: int) -> bool {
    ||| s[p] is Branch && !(exists|c: int| is_match(s, p, c))
    ||| s[p] is Return && !(exists|o: int| is_match(s, o, p))
}

/// Whether `pairs` pairs every branch of `s` with its matching return, and
/// holds nothing else.
pub open spec fn is_branch_table(s: Seq<Instruction>, pairs: Map<usize, usize>) -> bool {
    &&& forall|o: usize| pairs.contains_key(o) <==> (o < s.len() && s[o as int] is Branch)
    &&& forall|o: usize| #[trigger] pairs.contains_key(o) ==> is_match(s, o as int, pairs[o] as int)
}

/// Whether every branch and every return of `s` is matched.
pub open spec fn all_matched(s: Seq<Instruction>) -> bool {
    forall|p: int| 0 <= p < s.len() ==> !is_unmatched(s, p)
}

/// Whether `e` is the error for the first unmatched branch or return of `s`.
pub open spec fn is_unmatched_error(s: Seq<Instruction>, e: (String, usize, usize)) -> bool {
    exists|p: int|
        0 <= p < s.len() && is_unmatched(s, p)
        && (forall|q: int| 0 <= q < p ==> !is_unmatched(s, q))
        && (e.1, e.2) == s[p].origin().spec_position()
        && e.0@ == unmatched_message(s[p])
}

/// The message of the error for an unmatched branch or return `i`.
pub open spec fn unmatched_message(i: Instruction) -> Seq<char> {
    if i is Branch {
        "Branch ('[') has no return (']')"@
    } else {
        "Return (']') has no branch ('[')"@
    }
}

/// A branch has at most one matching return.
pub proof fn lemma_match_unique_close(s: Seq<Instruction>, open: int, c1: int, c2: int)
    requires
        is_match(s, open, c1),
        is_match(s, open, c2),
    ensures
        c1 == c2,
{
    if c1 < c2 {
        assert(depth(s, c1 + 1) > depth(s, open));
    } else if c2 < c1 {
        assert(depth(s, c2 + 1) > depth(s, open));
    }
}

/// A return has at most one matching branch.
pub proof fn lemma_match_unique_open(s: Seq<Instruction>, o1: int, o2: int, close: int)
    requires
        is_match(s, o1, close),
        is_match(s, o2, close),
    ensures
        o1 == o2,
{
    if o1 < o2 {
        assert(depth(s, o2) > depth(s, o1));
    } else if o2 < o1 {
        assert(depth(s, o1) > depth(s, o2));
    }
}

/// Two matched pairs never overlap partly: their ranges are disjoint, or one
/// lies inside the other. Each branch comes before its return.
pub proof fn lemma_matches_nest(s: Seq<Instruction>, o1: int, c1: int, o2: int, c2: int)
    requires
        is_match(s, o1, c1),
        is_match(s, o2, c2),
    ensures
        o1 < c1,
        c1 < o2 || c2 < o1 || (o1 <= o2 && c2 <= c1) || (o2 <= o1 && c1 <= c2),
{
    if o1 == o2 {
        lemma_match_unique_close(s, o1, c1, c2);
    } else if o1 < o2 && o2 < c1 && c1 < c2 {
        assert(depth(s, o2) > depth(s, o1));
        assert(depth(s, c1 + 1) > depth(s, o2));
    } else if o2 < o1 && o1 < c2 && c2 < c1 {
        assert(depth(s, o1) > depth(s, o2));
        assert(depth(s, c2 + 1) > depth(s, o1));
    }
}

/// The branch table of a program is a one-to-one pairing in which each
/// branch comes before its return and no two pairs overlap partly.
pub proof fn lemma_branch_table_nests(s: Seq<Instruction>, pairs: Map<usize, usize>, o1: usize, o2: usize)
    requires
        is_branch_table(s, pairs),
        pairs.contains_key(o1),
        pairs.contains_key(o2),
    ensures
        o1 < pairs[o1],
        pairs[o1] == pairs[o2] ==> o1 == o2,
        pairs[o1] < o2 || pairs[o2] < o1
            || (o1 <= o2 && pairs[o2] <= pairs[o1])
            || (o2 <= o1 && pairs[o1] <= pairs[o2]),
{
    lemma_matches_nest(s, o1 as int, pairs[o1] as int, o2 as int, pairs[o2] as int);
    if pairs[o1] == pairs[o2] {
        lemma_match_unique_open(s, o1 as int, o2 as int, pairs[o1] as int);
    }
}

/// Looks for the return that matches the branch at `open`.
fn find_return(instr: &Vec<Instruction>, open: usize) -> (r: Option<usize>)
    requires
        open < instr@.len(),
        instr@[open as int] is Branch,
    ensures
        match r {
            Some(c) => is_match(instr@, open as int, c as int),
            None => forall|c: int| !is_match(instr@, open as int, c),
        },
{
    let ghost s = instr@;
    let len: usize = instr.len();
    let mut offset: usize = 0;
    let mut k: usize = open + 1;
    while k < instr.len()
        invariant
            s == instr@,
            open < k <= s.len(),
            s[open as int] is Branch,
            offset <= k - open - 1,
            offset as int == depth(s, k as int) - depth(s, open as int) - 1,
            forall|j: int| open < j <= k ==> depth(s, j) > depth(s, open as int),
            forall|c: int| open < c < k ==> !is_match(s, open as int, c),
        decreases s.len() - k,
    {
        assert(depth(s, k + 1) == depth(s, k as int) + nesting_step(s[k as int]));
        match instr[k] {
            Instruction::Branch(_) => {
                offset += 1;
            },
            Instruction::Return(_) => {
                if offset == 0 {
                    return Some(k);
                }
                offset -= 1;
            },
            _ => {},
        }
        k += 1;
    }
    None
}

/// Pairs every branch with the return that closes it (ignoring what the
/// cells will hold at run time). The first position, in program order, that
/// holds a branch without a return or a return without a branch is an error
/// at that instruction's origin.
pub fn calculate_branches(instr: &Vec<Instruction>) -> (r: Result<Table, (String, usize, usize)>)
    ensures
        match r {
            Ok(m) => all_matched(instr@) && is_branch_table(instr@, pairs_of(m)),
            Err(e) => is_unmatched_error(instr@, e),
        },
{
    let ghost s = instr@;
    let mut branches = table_new();
    let mut position: usize = 0;
    while position < instr.len()
        invariant
            s == instr@,
            position <= s.len(),
            forall|q: int| 0 <= q < position ==> !is_unmatched(s, q),
            forall|o: usize|
                pairs_of(branches).contains_key(o) <==> (o < position && s[o as int] is Branch),
            forall|o: usize| #[trigger]
                pairs_of(branches).contains_key(o) ==> is_match(s, o as int, pairs_of(branches)[o] as int),
        decreases s.len() - position,
    {
        let instruction = instr[position];
        match instruction {
            Instruction::Branch(token) => {
                match find_return(instr, position) {
                    Some(close) => {
                        let ghost before = pairs_of(branches);
                        proof {
                            assert forall|o: usize| before.contains_key(o) implies before[o] != close by {
                                if before[o] == close {
                                    lemma_match_unique_open(s, o as int, position as int, close as int);
                                }
                            }
                        }
                        table_insert(&mut branches, position, close);
                        assert(pairs_of(branches) =~= before.insert(position, close));
                    },
                    None => {
                        let (line, character) = token.position();
                        let msg = text("Branch ('[') has no return (']')");
                        assert(is_unmatched(s, position as int));
                        assert(msg@ == unmatched_message(s[position as int]));
                        return Err((msg, line, character));
                    },
                }
            },
            Instruction::Return(token) => {
                let matched = table_contains_right(&branches, position);
                proof {
                    if matched {
                        let o = choose|o: usize|
                            pairs_of(branches).contains_key(o) && pairs_of(branches)[o] == position;
                        assert(is_match(s, o as int, position as int));
                    } else {
                        assert forall|o: int| !is_match(s, o, position as int) by {
                            if is_match(s, o, position as int) {
                                let ou = o as usize;
                                assert(pairs_of(branches).contains_key(ou));
                                lemma_match_unique_close(
                                    s,
                                    o,
                                    position as int,
                                    pairs_of(branches)[ou] as int,
                                );
                            }
                        }
                    }
                }
                if !matched {
                    let (line, character) = token.position();
                    let msg = text("Return (']') has no branch ('[')");
                    assert(is_unmatched(s, position as int));
                    assert(msg@ == unmatched_message(s[position as int]));
                    return Err((msg, line, character));
                }
            },
            _ => {},
        }
        position += 1;
    }
    Ok(branches)
}

} // verus!
