//! Splits program text into position-tagged symbols.

use vstd::prelude::*;
use vstd::std_specs::iter::IteratorSpec;

verus! {

/// One source symbol; the two fields are the (line, column) of its origin.
#[derive(Debug, Clone, Copy, PartialEq, Eq, Structural)]
pub enum Token {
    MoveRight(usize, usize),
    MoveLeft(usize, usize),
    Increment(usize, usize),
    Decrement(usize, usize),
    Output(usize, usize),
    Input(usize, usize),
    Branch(usize, usize),
    Return(usize, usize),
    Jump(usize, usize),
    Restore(usize, usize),
    Alloc(usize, usize),
    Nop(usize, usize),
}

impl Token {
    /// The (line, column) the symbol came from.
    pub open spec fn spec_position(&self) -> (usize, usize) {
        match *self {
            Token::MoveRight(l, c) => (l, c),
            Token::MoveLeft(l, c) => (l, c),
            Token::Increment(l, c) => (l, c),
            Token::Decrement(l, c) => (l, c),
            Token::Output(l, c) => (l, c),
            Token::Input(l, c) => (l, c),
            Token::Branch(l, c) => (l, c),
            Token::Return(l, c) => (l, c),
            Token::Jump(l, c) => (l, c),
            Token::Restore(l, c) => (l, c),
            Token::Alloc(l, c) => (l, c),
            Token::Nop(l, c) => (l, c),
        }
    }

    #[verifier::when_used_as_spec(spec_position)]
    pub fn position(&self) -> (r: (usize, usize))
        ensures
            r == self.spec_position(),
    {
        match *self {
            Token::MoveRight(l, c) => (l, c),
            Token::MoveLeft(l, c) => (l, c),
            Token::Increment(l, c) => (l, c),
            Token::Decrement(l, c) => (l, c),
            Token::Output(l, c) => (l, c),
            Token::Input(l, c) => (l, c),
            Token::Branch(l, c) => (l, c),
            Token::Return(l, c) => (l, c),
            Token::Jump(l, c) => (l, c),
            Token::Restore(l, c) => (l, c),
            Token::Alloc(l, c) => (l, c),
            Token::Nop(l, c) => (l, c),
        }
    }

    /// Whether both symbols are of the same kind, whatever their positions.
    pub open spec fn spec_same_kind(&self, other: &Token) -> bool {
        match (*self, *other) {
            (Token::MoveRight(..), Token::MoveRight(..)) => true,
            (Token::MoveLeft(..), Token::MoveLeft(..)) => true,
            (Token::Increment(..), Token::Increment(..)) => true,
            (Token::Decrement(..), Token::Decrement(..)) => true,
            (Token::Output(..), Token::Output(..)) => true,
            (Token::Input(..), Token::Input(..)) => true,
            (Token::Branch(..), Token::Branch(..)) => true,
            (Token::Return(..), Token::Return(..)) => true,
            (Token::Jump(..), Token::Jump(..)) => true,
            (Token::Restore(..), Token::Restore(..)) => true,
            (Token::Alloc(..), Token::Alloc(..)) => true,
            (Token::Nop(..), Token::Nop(..)) => true,
            _ => false,
        }
    }

    #[verifier::when_used_as_spec(spec_same_kind)]
    pub fn same_kind(&self, other: &Token) -> (r: bool)
        ensures
            r == self.spec_same_kind(other),
    {
        match (*self, *other) {
            (Token::MoveRight(..), Token::MoveRight(..)) => true,
            (Token::MoveLeft(..), Token::MoveLeft(..)) => true,
            (Token::Increment(..), Token::Increment(..)) => true,
            (Token::Decrement(..), Token::Decrement(..)) => true,
            (Token::Output(..), Token::Output(..)) => true,
            (Token::Input(..), Token::Input(..)) => true,
            (Token::Branch(..), Token::Branch(..)) => true,
            (Token::Return(..), Token::Return(..)) => true,
            (Token::Jump(..), Token::Jump(..)) => true,
            (Token::Restore(..), Token::Restore(..)) => true,
            (Token::Alloc(..), Token::Alloc(..)) => true,
            (Token::Nop(..), Token::Nop(..)) => true,
            _ => false,
        }
    }
}

/// The symbol that character `c` at (`line`, `col`) stands for; `None` for a
/// character that the language ignores.
pub open spec fn symbol_of(c: char, line: usize, col: usize) -> Option<Token> {
    if c == '>' {
        Some(Token::MoveRight(line, col))
    } else if c == '<' {
        Some(Token::MoveLeft(line, col))
    } else if c == '+' {
        Some(Token::Increment(line, col))
    } else if c == '-' {
        Some(Token::Decrement(line, col))
    } else if c == '.' {
        Some(Token::Output(line, col))
    } else if c == ',' {
        Some(Token::Input(line, col))
    } else if c == '[' {
        Some(Token::Branch(line, col))
    } else if c == ']' {
        Some(Token::Return(line, col))
    } else if c == '*' {
        Some(Token::Jump(line, col))
    } else if c == '&' {
        Some(Token::Restore(line, col))
    } else if c == '?' {
        Some(Token::Alloc(line, col))
    } else {
        None
    }
}

/// The symbols of the first `n` characters of `text`, the line numbered `line`.
pub open spec fn line_symbols(text: Seq<char>, line: usize, n: nat) -> Seq<Token>
    decreases n,
{
    if n == 0 {
        seq![]
    } else {
        let before = line_symbols(text, line, (n - 1) as nat);
        match symbol_of(text[n - 1], line, (n - 1) as usize) {
            Some(t) => before.push(t),
            None => before,
        }
    }
}

/// The symbols of the first `n` lines of `code`, in reading order.
pub open spec fn lexed(code: Seq<Seq<char>>, n: nat) -> Seq<Token>
    decreases n,
{
    if n == 0 {
        seq![]
    } else {
        lexed(code, (n - 1) as nat) + line_symbols(code[n - 1], (n - 1) as usize, code[n - 1].len())
    }
}

fn symbol_at(c: char, line: usize, col: usize) -> (r: Option<Token>)
    ensures
        r == symbol_of(c, line, col),
{
    match c {
        '>' => Some(Token::MoveRight(line, col)),
        '<' => Some(Token::MoveLeft(line, col)),
        '+' => Some(Token::Increment(line, col)),
        '-' => Some(Token::Decrement(line, col)),
        '.' => Some(Token::Output(line, col)),
        ',' => Some(Token::Input(line, col)),
        '[' => Some(Token::Branch(line, col)),
        ']' => Some(Token::Return(line, col)),
        '*' => Some(Token::Jump(line, col)),
        '&' => Some(Token::Restore(line, col)),
        '?' => Some(Token::Alloc(line, col)),
        _ => None,
    }
}

/// Turns lines of program text into symbols, tagged with their line and
/// column (both counted from 0, columns in characters). Characters that are
/// not part of the language are dropped, so no `Nop` is ever returned.
pub fn lexify(code: Vec<String>) -> (r: Vec<Token>)
    ensures
        r@ == lexed(code@.map_values(|s: String| s@), code@.len()),
        forall|i: int| 0 <= i < r@.len() ==> !(r@[i] is Nop),
{
    let ghost text = code@.map_values(|s: String| s@);
    let mut tokens: Vec<Token> = Vec::new();
    let mut line_num: usize = 0;
    while line_num < code.len()
        invariant
            line_num <= code@.len(),
            text == code@.map_values(|s: String| s@),
            tokens@ == lexed(text, line_num as nat),
            forall|i: int| 0 <= i < tokens@.len() ==> !(tokens@[i] is Nop),
        decreases code@.len() - line_num,
    {
        let line: &str = code[line_num].as_str();
        let len: usize = line.unicode_len();
        let ghost start = tokens@;
        let mut chars = line.chars();
        let mut col: usize = 0;
        while col < len
            invariant
                col <= len,
                len == line@.len(),
                line@ == text[line_num as int],
                chars.remaining() == line@.skip(col as int),
                tokens@ == start + line_symbols(line@, line_num, col as nat),
                forall|i: int| 0 <= i < tokens@.len() ==> !(tokens@[i] is Nop),
            decreases len - col,
        {
            let next = chars.next();
            let c = match next {
                Some(c) => c,
                None => {
                    assert(false);
                    ' '
                },
            };
            assert(c == line@[col as int]);
            match symbol_at(c, line_num, col) {
                Some(t) => tokens.push(t),
                None => {},
            }
            assert(line@.skip(col as int).drop_first() =~= line@.skip(col + 1));
            col += 1;
        }
        line_num += 1;
    }
    tokens
}

} // verus!
