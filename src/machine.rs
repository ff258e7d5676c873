//! What each instruction does to the machine: the tape, the data pointer and
//! the stack of saved pointers, as values.

use vstd::prelude::*;
use vstd::arithmetic::div_mod::lemma_add_mod_noop_right;
use crate::lexer::Token;
use crate::parser::{instruction_of, is_foldable, lemma_run_length, resolved, Instruction};

verus! {

/// The number of cells on the tape.
pub const TAPE_LEN: usize = 65536;

/// The machine as values: the data pointer, the cells, and the pointers saved
/// by jumps (the last one on top).
pub struct MachineState {
    pub pointer: usize,
    pub tape: Seq<u8>,
    pub jumps: Seq<usize>,
}

impl MachineState {
    /// The tape has its full length and every pointer, current or saved, is
    /// on it.
    pub open spec fn is_valid(self) -> bool {
        &&& self.tape.len() == TAPE_LEN
        &&& self.pointer < TAPE_LEN
        &&& forall|i: int| 0 <= i < self.jumps.len() ==> self.jumps[i] < TAPE_LEN
    }

    /// The cell under the pointer.
    pub open spec fn cell(self) -> u8 {
        self.tape[self.pointer as int]
    }
}

/// The pointer `n` cells right of `p`, going round the end of the tape.
pub open spec fn moved_right(p: usize, n: usize) -> usize {
    ((p + n) % (TAPE_LEN as int)) as usize
}

/// The pointer `n` cells left of `p`, going round the start of the tape.
pub open spec fn moved_left(p: usize, n: usize) -> usize {
    ((p - n) % (TAPE_LEN as int)) as usize
}

/// Cell value `c` raised by `n`, modulo 256.
pub open spec fn incremented(c: u8, n: usize) -> u8 {
    ((c + n) % 256) as u8
}

/// Cell value `c` lowered by `n`, modulo 256.
pub open spec fn decremented(c: u8, n: usize) -> u8 {
    ((c - n) % 256) as u8
}

/// Whether the `n` cells from address `a` on are all on the tape and zero.
pub open spec fn is_free_run(tape: Seq<u8>, a: int, n: int) -> bool {
    &&& 0 <= a
    &&& a + n <= tape.len()
    &&& forall|j: int| a <= j < a + n ==> tape[j] == 0
}

/// Whether `a` is the lowest address after `p` where `n` free cells start.
pub open spec fn is_first_fit(tape: Seq<u8>, p: int, n: int, a: int) -> bool {
    &&& p < a
    &&& is_free_run(tape, a, n)
    &&& forall|b: int| p < b < a ==> !is_free_run(tape, b, n)
}

/// Whether `n` free cells start somewhere after `p`.
pub open spec fn has_free_run(tape: Seq<u8>, p: int, n: int) -> bool {
    exists|a: int| p < a && is_free_run(tape, a, n)
}

/// What instruction `i` does to machine `m`; `None` where it fails (a
/// restore with no saved pointer, an allocation that finds no room).
/// Branches, returns, output and input leave the machine as it is.
pub open spec fn apply(m: MachineState, i: Instruction) -> Option<MachineState> {
    let p = m.pointer as int;
    match i {
        Instruction::MoveRight(n, _) => Some(MachineState { pointer: moved_right(m.pointer, n), ..m }),
        Instruction::MoveLeft(n, _) => Some(MachineState { pointer: moved_left(m.pointer, n), ..m }),
        Instruction::Increment(n, _) => Some(
            MachineState { tape: m.tape.update(p, incremented(m.tape[p], n)), ..m },
        ),
        Instruction::Decrement(n, _) => Some(
            MachineState { tape: m.tape.update(p, decremented(m.tape[p], n)), ..m },
        ),
        Instruction::Jump(_) => Some(
            MachineState { pointer: m.tape[p] as usize, jumps: m.jumps.push(m.pointer), ..m },
        ),
        Instruction::Restore(_) => if m.jumps.len() == 0 {
            None
        } else {
            Some(MachineState { pointer: m.jumps.last(), jumps: m.jumps.drop_last(), ..m })
        },
        Instruction::Alloc(_) => if has_free_run(m.tape, p, m.tape[p] as int) {
            let a = choose|a: int| is_first_fit(m.tape, p, m.tape[p] as int, a);
            Some(MachineState { tape: m.tape.update(p, (a % 256) as u8), ..m })
        } else {
            None
        },
        _ => Some(m),
    }
}

/// What the instructions of `s` do to `m`, one after another, when none of
/// them branches; `None` where one fails.
pub open spec fn run_all(m: MachineState, s: Seq<Instruction>) -> Option<MachineState>
    decreases s.len(),
{
    if s.len() == 0 {
        Some(m)
    } else {
        match apply(m, s[0]) {
            Some(m1) => run_all(m1, s.drop_first()),
            None => None,
        }
    }
}

/// Where `n` free cells start after `p`, the lowest such address exists.
pub proof fn lemma_first_fit_exists(tape: Seq<u8>, p: int, n: int, a: int)
    requires
        p < a,
        is_free_run(tape, a, n),
    ensures
        exists|f: int| is_first_fit(tape, p, n, f),
    decreases a - p,
{
    if exists|b: int| p < b < a && is_free_run(tape, b, n) {
        let b = choose|b: int| p < b < a && is_free_run(tape, b, n);
        lemma_first_fit_exists(tape, p, n, b);
    } else {
        assert(is_first_fit(tape, p, n, a));
    }
}

/// Allocation stores the low byte of the lowest address after the pointer
/// where as many free cells start as the current cell says, and fails exactly
/// where no such address exists.
pub proof fn lemma_alloc_first_fit(m: MachineState, t: Token)
    ensures
        match apply(m, Instruction::Alloc(t)) {
            Some(m2) => exists|a: int|
                is_first_fit(m.tape, m.pointer as int, m.cell() as int, a)
                && m2 == MachineState { tape: m.tape.update(m.pointer as int, (a % 256) as u8), ..m },
            None => !has_free_run(m.tape, m.pointer as int, m.cell() as int),
        },
{
    let p = m.pointer as int;
    let n = m.tape[p] as int;
    if has_free_run(m.tape, p, n) {
        let a = choose|a: int| p < a && is_free_run(m.tape, a, n);
        lemma_first_fit_exists(m.tape, p, n, a);
        let f = choose|f: int| is_first_fit(m.tape, p, n, f);
        assert(is_first_fit(m.tape, m.pointer as int, m.cell() as int, f));
        assert(apply(m, Instruction::Alloc(t)) == Some(
            MachineState { tape: m.tape.update(p, (f % 256) as u8), ..m },
        ));
    }
}

/// Every instruction keeps the pointer, and every saved pointer, on the tape.
pub proof fn lemma_pointer_stays_on_tape(m: MachineState, i: Instruction)
    requires
        m.is_valid(),
    ensures
        apply(m, i) matches Some(m2) ==> m2.is_valid() && m2.pointer < TAPE_LEN,
{
    if let Instruction::Restore(_) = i {
        if m.jumps.len() > 0 {
            assert(m.jumps.last() == m.jumps[m.jumps.len() - 1]);
        }
    }
}

/// Cell arithmetic goes round modulo 256 both ways: 255 raised by one is 0,
/// 0 lowered by one is 255, and lowering undoes raising.
pub proof fn lemma_cell_arithmetic_wraps(c: u8, n: usize)
    ensures
        incremented(255, 1) == 0,
        decremented(0, 1) == 255,
        decremented(incremented(c, n), n) == c,
        incremented(decremented(c, n), n) == c,
        incremented(c, 256) == c,
{
    lemma_add_mod_noop_right(-(n as int), c + n, 256);
    lemma_add_mod_noop_right(n as int, c - n, 256);
}

/// Whether `x` is the instruction for a single symbol of the kind of `t`.
spec fn is_single_like(x: Instruction, t: Token) -> bool {
    &&& x == instruction_of(x.origin(), 1)
    &&& x.origin().spec_same_kind(&t)
}

/// One instruction for `k` symbols does what `k` instructions for one symbol
/// each do.
proof fn lemma_singles(m: MachineState, t: Token, u: Seq<Instruction>, k: usize)
    requires
        m.is_valid(),
        is_foldable(t),
        k >= 1,
        u.len() == k,
        forall|i: int| 0 <= i < k ==> is_single_like(#[trigger] u[i], t),
    ensures
        run_all(m, u) == apply(m, instruction_of(t, k)),
    decreases k,
{
    assert(is_single_like(u[0], t));
    assert(apply(m, u[0]) == apply(m, instruction_of(t, 1)));
    let m1 = apply(m, u[0]).unwrap();
    let p = m.pointer as int;
    let T = TAPE_LEN as int;
    if k == 1 {
        assert(u.drop_first().len() == 0);
    } else {
        lemma_pointer_stays_on_tape(m, u[0]);
        let rest = u.drop_first();
        assert forall|i: int| 0 <= i < k - 1 implies is_single_like(#[trigger] rest[i], t) by {
            assert(rest[i] == u[i + 1]);
        }
        lemma_singles(m1, t, rest, (k - 1) as usize);
        match t {
            Token::MoveRight(..) => {
                lemma_add_mod_noop_right(k - 1, p + 1, T);
            },
            Token::MoveLeft(..) => {
                lemma_add_mod_noop_right(-(k - 1), p - 1, T);
            },
            Token::Increment(..) => {
                lemma_add_mod_noop_right(k - 1, m.tape[p] + 1, 256);
                assert(m1.tape.update(p, incremented(m1.tape[p], (k - 1) as usize))
                    =~= m.tape.update(p, incremented(m.tape[p], k)));
            },
            _ => {
                lemma_add_mod_noop_right(-(k - 1), m.tape[p] - 1, 256);
                assert(m1.tape.update(p, decremented(m1.tape[p], (k - 1) as usize))
                    =~= m.tape.update(p, decremented(m.tape[p], k)));
            },
        }
    }
}

/// Folding a run of `k` identical movement or arithmetic symbols gives one
/// instruction with count `k`, and running it does to any valid machine what
/// running the `k` symbols one by one does.
pub proof fn lemma_folding_preserves_effect(run: Seq<Token>, m: MachineState)
    requires
        1 <= run.len() <= usize::MAX,
        is_foldable(run[0]),
        forall|i: int| 0 <= i < run.len() ==> run[i].spec_same_kind(&run[0]),
        m.is_valid(),
    ensures
        resolved(run, 0) == seq![instruction_of(run[0], run.len() as usize)],
        run_all(m, resolved(run, 0)) == run_all(m, run.map_values(|t: Token| instruction_of(t, 1))),
{
    let k = run.len() as usize;
    lemma_run_length(run, 0, run.len() as int);
    assert(resolved(run, k as int) == Seq::<Instruction>::empty());
    assert(resolved(run, 0) =~= seq![instruction_of(run[0], k)]);
    let u = run.map_values(|t: Token| instruction_of(t, 1));
    assert forall|i: int| 0 <= i < k implies is_single_like(#[trigger] u[i], run[0]) by {
        assert(u[i] == instruction_of(run[i], 1));
    }
    lemma_singles(m, run[0], u, k);
    let one = seq![instruction_of(run[0], k)];
    assert(one.drop_first() =~= Seq::<Instruction>::empty());
    let m1 = apply(m, one[0]).unwrap();
    assert(run_all(m1, one.drop_first()) == Some(m1));
    assert(run_all(m, one) == apply(m, one[0]));
}

/// Running `a` and then `b` is running `a + b`.
pub proof fn lemma_run_all_append(m: MachineState, a: Seq<Instruction>, b: Seq<Instruction>)
    ensures
        run_all(m, a + b) == match run_all(m, a) {
            Some(m2) => run_all(m2, b),
            None => None,
        },
    decreases a.len(),
{
    if a.len() == 0 {
        assert(a + b =~= b);
    } else {
        assert((a + b).drop_first() =~= a.drop_first() + b);
        if let Some(m1) = apply(m, a[0]) {
            lemma_run_all_append(m1, a.drop_first(), b);
        }
    }
}

/// Whether, starting with `saved` pointers on the stack, each restore of `s`
/// finds one saved by an earlier jump or already there.
pub open spec fn restores_covered(s: Seq<Instruction>, saved: int) -> bool
    decreases s.len(),
{
    if s.len() == 0 {
        true
    } else if s[0] is Restore {
        saved > 0 && restores_covered(s.drop_first(), saved - 1)
    } else if s[0] is Jump {
        restores_covered(s.drop_first(), saved + 1)
    } else {
        restores_covered(s.drop_first(), saved)
    }
}

/// A run of jumps and restores fails exactly where some restore has no
/// pointer left to take back.
pub proof fn lemma_restore_needs_jump(m: MachineState, s: Seq<Instruction>)
    requires
        forall|i: int| 0 <= i < s.len() ==> #[trigger] s[i] is Jump || s[i] is Restore,
    ensures
        run_all(m, s) is Some <==> restores_covered(s, m.jumps.len() as int),
    decreases s.len(),
{
    if s.len() > 0 {
        let rest = s.drop_first();
        assert forall|i: int| 0 <= i < rest.len() implies #[trigger] rest[i] is Jump || rest[i] is Restore by {
            assert(rest[i] == s[i + 1]);
        }
        if let Some(m1) = apply(m, s[0]) {
            lemma_restore_needs_jump(m1, rest);
        }
    }
}

/// `n` jumps followed by `n` restores bring the pointer back to where it was,
/// and leave the whole machine as it was.
pub proof fn lemma_jumps_then_restores(m: MachineState, js: Seq<Instruction>, rs: Seq<Instruction>)
    requires
        js.len() == rs.len(),
        forall|i: int| 0 <= i < js.len() ==> #[trigger] js[i] is Jump,
        forall|i: int| 0 <= i < rs.len() ==> #[trigger] rs[i] is Restore,
    ensures
        run_all(m, js + rs) == Some(m),
    decreases js.len(),
{
    if js.len() == 0 {
        assert(js + rs =~= Seq::<Instruction>::empty());
    } else {
        let m1 = apply(m, js[0]).unwrap();
        let inner_js = js.drop_first();
        let inner_rs = rs.drop_last();
        assert forall|i: int| 0 <= i < inner_js.len() implies #[trigger] inner_js[i] is Jump by {
            assert(inner_js[i] == js[i + 1]);
        }
        assert forall|i: int| 0 <= i < inner_rs.len() implies #[trigger] inner_rs[i] is Restore by {
            assert(inner_rs[i] == rs[i]);
        }
        lemma_jumps_then_restores(m1, inner_js, inner_rs);
        let last = seq![rs.last()];
        assert((js + rs).drop_first() =~= (inner_js + inner_rs) + last);
        lemma_run_all_append(m1, inner_js + inner_rs, last);
        assert(rs.last() is Restore);
        assert(m1.jumps.drop_last() =~= m.jumps);
        let m2 = apply(m1, rs.last()).unwrap();
        assert(m2 == m);
        assert(last.drop_first() =~= Seq::<Instruction>::empty());
        assert(run_all(m2, last.drop_first()) == Some(m2));
    }
}

} // verus!
