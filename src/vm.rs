//! The program and the machine that runs it, one instruction per step. The
//! caller performs output and input and reports back how they went.

use vstd::prelude::*;
use vstd::arithmetic::div_mod::{
    lemma_add_mod_noop_right, lemma_fundamental_div_mod, lemma_mod_multiples_vanish,
};
use crate::lexer::Token;
use crate::machine::{apply, has_free_run, is_first_fit, is_free_run, MachineState, TAPE_LEN};
use crate::parser::{
    all_matched, calculate_branches, is_branch_table, is_match, is_unmatched,
    lemma_match_unique_close, is_nop_error, is_unmatched_error,
    nop_free, parse, resolved, Instruction,
};
use crate::table::{has_right, pairs_of, table_get_by_left, table_get_by_right, Table};
use crate::text::{decimal, push_decimal, text};

verus! {

/// The tape and the data pointer.
struct Machine {
    pointer: usize,
    memory: Vec<u8>,
}

/// A loaded program: its instructions and branch table, and the machine
/// state of its run.
pub struct Program {
    instructions: Vec<Instruction>,
    branches: Table,
    jumps: Vec<usize>,
    vm: Machine,
    pc: usize,
}

/// What a step asks of the caller.
#[derive(Debug, Clone, Copy, PartialEq, Eq, Structural)]
pub enum Status {
    /// The step is done; step again.
    Running,
    /// Write this byte and flush, then report with `finish_output`.
    Output(u8),
    /// Read one byte, then report with `finish_input`.
    Input,
    /// The program has ended.
    Halted,
}

/// The machine when a program is loaded: pointer at 0, all cells zero, no
/// saved pointers.
pub open spec fn initial_state() -> MachineState {
    MachineState { pointer: 0, tape: Seq::new(TAPE_LEN as nat, |i: int| 0u8), jumps: seq![] }
}

/// The message of the error when instruction `i` fails on machine `m`.
pub open spec fn runtime_message(i: Instruction, m: MachineState) -> Seq<char> {
    if i is Restore {
        "Runtime error: no saved jumps."@
    } else {
        "Runtime error: insufficient memory to allocate "@ + decimal(m.cell() as nat) + " bytes."@
    }
}

/// Whether `e` is the error for instruction `i` failing on machine `m`.
pub open spec fn is_runtime_error(i: Instruction, m: MachineState, e: (String, usize, usize)) -> bool {
    &&& (e.1, e.2) == i.origin().spec_position()
    &&& e.0@ == runtime_message(i, m)
}

/// Subtracting `n` modulo `k` is adding the complement of `n % k`.
proof fn lemma_sub_via_complement(x: int, n: int, k: int)
    requires
        k > 0,
        n >= 0,
    ensures
        (x + (k - n % k)) % k == (x - n) % k,
{
    lemma_fundamental_div_mod(n, k);
    lemma_mod_multiples_vanish(-(n / k) - 1, x + (k - n % k), k);
    assert(k * (-(n / k) - 1) + (x + (k - n % k)) == x - n) by (nonlinear_arith)
        requires
            n == k * (n / k) + n % k,
    ;
}

/// Looks for the lowest address after `p` where `n` zero cells start.
fn find_free_run(tape: &Vec<u8>, p: usize, n: usize) -> (r: Option<usize>)
    requires
        tape@.len() == TAPE_LEN,
        p < TAPE_LEN,
    ensures
        match r {
            Some(a) => is_first_fit(tape@, p as int, n as int, a as int),
            None => !has_free_run(tape@, p as int, n as int),
        },
{
    let ghost t = tape@;
    if n == 0 {
        return Some(p + 1);
    }
    let mut start: usize = p + 1;
    let mut j: usize = p + 1;
    while j < TAPE_LEN
        invariant
            t == tape@,
            t.len() == TAPE_LEN,
            n > 0,
            p < start <= j <= TAPE_LEN,
            j - start < n,
            forall|i: int| start <= i < j ==> t[i] == 0,
            forall|b: int| p < b < start ==> !is_free_run(t, b, n as int),
        decreases TAPE_LEN - j,
    {
        if tape[j] == 0 {
            j += 1;
            if j - start == n {
                return Some(start);
            }
        } else {
            assert forall|b: int| p < b < j + 1 implies !is_free_run(t, b, n as int) by {
                if start <= b <= j && is_free_run(t, b, n as int) {
                    assert(t[j as int] == 0);
                }
            }
            j += 1;
            start = j;
        }
    }
    assert forall|b: int| p < b implies !is_free_run(t, b, n as int) by {
        if b >= start && is_free_run(t, b, n as int) {
            assert(b + n > TAPE_LEN);
        }
    }
    None
}

fn restore_error(token: Token) -> (r: (String, usize, usize))
    ensures
        (r.1, r.2) == token.spec_position(),
        r.0@ == "Runtime error: no saved jumps."@,
{
    let (line, character) = token.position();
    (text("Runtime error: no saved jumps."), line, character)
}

fn alloc_error(token: Token, size: u8) -> (r: (String, usize, usize))
    ensures
        (r.1, r.2) == token.spec_position(),
        r.0@ == "Runtime error: insufficient memory to allocate "@ + decimal(size as nat) + " bytes."@,
{
    let (line, character) = token.position();
    let mut msg = text("Runtime error: insufficient memory to allocate ");
    push_decimal(&mut msg, size as usize);
    msg.append(" bytes.");
    (msg, line, character)
}

/// Whether a step of instruction `i` at `pc` on machine `m`, in program
/// `code`, may end at counter `pc2` with machine `m2` and result `r`.
pub open spec fn step_outcome(
    code: Seq<Instruction>,
    pc: int,
    m: MachineState,
    i: Instruction,
    pc2: int,
    m2: MachineState,
    r: Result<Status, (String, usize, usize)>,
) -> bool {
    match i {
        Instruction::Output(_) => r == Ok::<Status, (String, usize, usize)>(Status::Output(m.cell()))
            && m2 == m && pc2 == pc,
        Instruction::Input(_) => r == Ok::<Status, (String, usize, usize)>(Status::Input)
            && m2 == m && pc2 == pc,
        Instruction::Branch(_) => r == Ok::<Status, (String, usize, usize)>(Status::Running)
            && m2 == m && if m.cell() == 0 {
                is_match(code, pc, pc2 - 1)
            } else {
                pc2 == pc + 1
            },
        Instruction::Return(_) => r == Ok::<Status, (String, usize, usize)>(Status::Running)
            && m2 == m && if m.cell() != 0 {
                is_match(code, pc2 - 1, pc)
            } else {
                pc2 == pc + 1
            },
        _ => match apply(m, i) {
            Some(next) => r == Ok::<Status, (String, usize, usize)>(Status::Running)
                && m2 == next && pc2 == pc + 1,
            None => r matches Err(e) && is_runtime_error(i, m, e) && m2 == m && pc2 == pc,
        },
    }
}

impl Program {
    /// The instructions.
    pub closed spec fn code(&self) -> Seq<Instruction> {
        self.instructions@
    }

    /// The branch table, from branch positions to return positions.
    pub closed spec fn table(&self) -> Map<usize, usize> {
        pairs_of(self.branches)
    }

    /// The position of the next instruction to run.
    pub closed spec fn counter(&self) -> int {
        self.pc as int
    }

    /// The machine.
    pub closed spec fn state(&self) -> MachineState {
        MachineState { pointer: self.vm.pointer, tape: self.vm.memory@, jumps: self.jumps@ }
    }

    /// The instruction to run next, if the program has not ended.
    pub open spec fn current(&self) -> Option<Instruction> {
        if 0 <= self.counter() < self.code().len() {
            Some(self.code()[self.counter()])
        } else {
            None
        }
    }

    /// Whether the program, its table and its machine are in order: the
    /// machine is valid, every branch is matched, and the table pairs them.
    pub open spec fn is_consistent(&self) -> bool {
        &&& self.state().is_valid()
        &&& 0 <= self.counter() <= self.code().len()
        &&& all_matched(self.code())
        &&& is_branch_table(self.code(), self.table())
    }

    /// Resolves `program` and matches its branches; the loaded program starts
    /// at its first instruction on a zeroed tape. Fails with the parse error
    /// of the first `Nop`, else with the error of the first unmatched branch
    /// or return.
    pub fn load(program: Vec<Token>) -> (r: Result<Program, (String, usize, usize)>)
        ensures
            match r {
                Ok(p) => {
                    &&& nop_free(program@)
                    &&& p.code() == resolved(program@, 0)
                    &&& all_matched(p.code())
                    &&& p.is_consistent()
                    &&& p.counter() == 0
                    &&& p.state() == initial_state()
                },
                Err(e) => {
                    ||| !nop_free(program@) && is_nop_error(program@, e)
                    ||| nop_free(program@) && is_unmatched_error(resolved(program@, 0), e)
                },
            },
    {
        let instructions = match parse(program) {
            Ok(instructions) => instructions,
            Err(e) => return Err(e),
        };
        let branches = match calculate_branches(&instructions) {
            Ok(branches) => branches,
            Err(e) => return Err(e),
        };
        let memory: Vec<u8> = vec![0u8; TAPE_LEN];
        let p = Program {
            instructions,
            branches,
            jumps: Vec::new(),
            vm: Machine { pointer: 0, memory },
            pc: 0,
        };
        proof {
            assert(p.state().tape =~= initial_state().tape);
            assert(p.state().jumps =~= initial_state().jumps);
        }
        Ok(p)
    }

    /// Runs the instruction at the counter, if any. Movement, arithmetic,
    /// jumps, restores and allocation act as `apply` says and move on to the
    /// next instruction; a failing one leaves everything as it was and returns
    /// its error. A branch on a zero cell continues after its matching
    /// return, a return on a nonzero cell after its matching branch. Output
    /// and input only report what they need: the caller completes them with
    /// `finish_output` and `finish_input`.
    pub fn step(&mut self) -> (r: Result<Status, (String, usize, usize)>)
        requires
            old(self).is_consistent(),
        ensures
            final(self).code() == old(self).code(),
            final(self).table() == old(self).table(),
            final(self).is_consistent(),
            match old(self).current() {
                None => r == Ok::<Status, (String, usize, usize)>(Status::Halted)
                    && final(self).state() == old(self).state()
                    && final(self).counter() == old(self).counter(),
                Some(i) => step_outcome(
                    old(self).code(),
                    old(self).counter(),
                    old(self).state(),
                    i,
                    final(self).counter(),
                    final(self).state(),
                    r,
                ),
            },
    {
        if self.pc >= self.instructions.len() {
            return Ok(Status::Halted);
        }
        let instruction = self.instructions[self.pc];
        let p = self.vm.pointer;
        let cell = self.vm.memory[p];
        let ghost m = self.state();
        match instruction {
            Instruction::MoveRight(n, _) => {
                self.vm.pointer = (p + n % TAPE_LEN) % TAPE_LEN;
                proof {
                    lemma_add_mod_noop_right(p as int, n as int, TAPE_LEN as int);
                }
            },
            Instruction::MoveLeft(n, _) => {
                self.vm.pointer = (p + (TAPE_LEN - n % TAPE_LEN)) % TAPE_LEN;
                proof {
                    lemma_sub_via_complement(p as int, n as int, TAPE_LEN as int);
                }
            },
            Instruction::Increment(n, _) => {
                self.vm.memory.set(p, ((cell as usize + n % 256) % 256) as u8);
                proof {
                    lemma_add_mod_noop_right(cell as int, n as int, 256);
                }
            },
            Instruction::Decrement(n, _) => {
                self.vm.memory.set(p, ((cell as usize + (256 - n % 256)) % 256) as u8);
                proof {
                    lemma_sub_via_complement(cell as int, n as int, 256);
                }
            },
            Instruction::Output(_) => {
                return Ok(Status::Output(cell));
            },
            Instruction::Input(_) => {
                return Ok(Status::Input);
            },
            Instruction::Branch(_) => {
                if cell == 0 {
                    let close = table_get_by_left(&self.branches, self.pc).unwrap();
                    self.pc = close + 1;
                    return Ok(Status::Running);
                }
            },
            Instruction::Return(_) => {
                if cell != 0 {
                    proof {
                        let code = self.code();
                        assert(!is_unmatched(code, self.pc as int));
                        let o = choose|o: int| is_match(code, o, self.pc as int);
                        let ou = o as usize;
                        assert(self.table().contains_key(ou));
                        lemma_match_unique_close(code, o, self.pc as int, self.table()[ou] as int);
                        assert(has_right(self.table(), self.pc));
                    }
                    let open = table_get_by_right(&self.branches, self.pc).unwrap();
                    self.pc = open + 1;
                    return Ok(Status::Running);
                }
            },
            Instruction::Jump(_) => {
                self.jumps.push(p);
                self.vm.pointer = cell as usize;
            },
            Instruction::Restore(token) => {
                match self.jumps.pop() {
                    Some(saved) => {
                        self.vm.pointer = saved;
                    },
                    None => {
                        return Err(restore_error(token));
                    },
                }
            },
            Instruction::Alloc(token) => {
                match find_free_run(&self.vm.memory, p, cell as usize) {
                    Some(address) => {
                        self.vm.memory.set(p, (address % 256) as u8);
                    },
                    None => {
                        return Err(alloc_error(token, cell));
                    },
                }
            },
        }
        self.pc += 1;
        Ok(Status::Running)
    }

    /// Completes an output instruction at the counter once the caller has
    /// written and flushed its byte: on success the program moves on; a
    /// failure becomes the error of that instruction, with the caller's
    /// message, and nothing changes. With no output waiting, nothing happens.
    pub fn finish_output(&mut self, flushed: Result<(), String>) -> (r: Result<(), (String, usize, usize)>)
        requires
            old(self).is_consistent(),
        ensures
            final(self).code() == old(self).code(),
            final(self).table() == old(self).table(),
            final(self).state() == old(self).state(),
            final(self).is_consistent(),
            match old(self).current() {
                Some(Instruction::Output(t)) => match flushed {
                    Ok(_) => r is Ok && final(self).counter() == old(self).counter() + 1,
                    Err(msg) => r matches Err(e) && (e.1, e.2) == t.spec_position()
                        && e.0@ == "Runtime error flushing output: "@ + msg@
                        && final(self).counter() == old(self).counter(),
                },
                _ => r is Ok && final(self).counter() == old(self).counter(),
            },
    {
        if self.pc < self.instructions.len() {
            if let Instruction::Output(token) = self.instructions[self.pc] {
                match flushed {
                    Ok(_) => {
                        self.pc += 1;
                    },
                    Err(msg) => {
                        let (line, character) = token.position();
                        let mut text_out = text("Runtime error flushing output: ");
                        text_out.append(msg.as_str());
                        return Err((text_out, line, character));
                    },
                }
            }
        }
        Ok(())
    }

    /// Completes an input instruction at the counter with what the caller
    /// read: a byte goes into the cell under the pointer and the program
    /// moves on; the end of input, or a failure to read, is the error of that
    /// instruction, and nothing changes. With no input waiting, nothing
    /// happens.
    pub fn finish_input(&mut self, read: Result<Option<u8>, String>) -> (r: Result<(), (String, usize, usize)>)
        requires
            old(self).is_consistent(),
        ensures
            final(self).code() == old(self).code(),
            final(self).table() == old(self).table(),
            final(self).is_consistent(),
            match old(self).current() {
                Some(Instruction::Input(t)) => match read {
                    Ok(Some(b)) => r is Ok && final(self).counter() == old(self).counter() + 1
                        && final(self).state() == MachineState {
                            tape: old(self).state().tape.update(old(self).state().pointer as int, b),
                            ..old(self).state()
                        },
                    Ok(None) => r matches Err(e) && (e.1, e.2) == t.spec_position()
                        && e.0@ == "Runtime error reading input: end of input"@
                        && final(self).counter() == old(self).counter()
                        && final(self).state() == old(self).state(),
                    Err(msg) => r matches Err(e) && (e.1, e.2) == t.spec_position()
                        && e.0@ == "Runtime error reading input: "@ + msg@
                        && final(self).counter() == old(self).counter()
                        && final(self).state() == old(self).state(),
                },
                _ => r is Ok && final(self).counter() == old(self).counter()
                    && final(self).state() == old(self).state(),
            },
    {
        if self.pc < self.instructions.len() {
            if let Instruction::Input(token) = self.instructions[self.pc] {
                match read {
                    Ok(Some(byte)) => {
                        let p = self.vm.pointer;
                        self.vm.memory.set(p, byte);
                        self.pc += 1;
                    },
                    Ok(None) => {
                        let (line, character) = token.position();
                        return Err((text("Runtime error reading input: end of input"), line, character));
                    },
                    Err(msg) => {
                        let (line, character) = token.position();
                        let mut text_out = text("Runtime error reading input: ");
                        text_out.append(msg.as_str());
                        return Err((text_out, line, character));
                    },
                }
            }
        }
        Ok(())
    }

    /// The data pointer.
    pub fn pointer(&self) -> (r: usize)
        ensures
            r == self.state().pointer,
    {
        self.vm.pointer
    }

    /// The cell at `address`, if it is on the tape.
    pub fn cell_at(&self, address: usize) -> (r: Option<u8>)
        ensures
            address < self.state().tape.len() ==> r == Some(self.state().tape[address as int]),
            address >= self.state().tape.len() ==> r is None,
    {
        if address < self.vm.memory.len() {
            Some(self.vm.memory[address])
        } else {
            None
        }
    }

    /// How many pointers jumps have saved and restores not yet taken back.
    pub fn saved_jumps(&self) -> (r: usize)
        ensures
            r == self.state().jumps.len(),
    {
        self.jumps.len()
    }

    /// The position of the next instruction to run.
    pub fn position(&self) -> (r: usize)
        ensures
            r == self.counter(),
    {
        self.pc
    }

    /// The instructions.
    pub fn instructions(&self) -> (r: &Vec<Instruction>)
        ensures
            r@ == self.code(),
    {
        &self.instructions
    }
}

} // verus!
