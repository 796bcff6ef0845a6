use vstd::prelude::*;
use std::collections::HashMap;
use crate::ir::{
    IRInstruction, MAX_RUN, compile, folded, is_foldable, lemma_compile_run,
    lemma_compile_single, program_of, repeat, single,
};
use crate::jumps::{BracketError, balanced, depth, has_unmatched_close, resolve_jumps, resolves};
use crate::lexer::{EOF, Lexer, is_instruction_char};

verus! {

broadcast use vstd::std_specs::hash::group_hash_axioms;

/// The number of cells on the tape.
pub const TOTAL_MEMORY_SIZE: usize = 100000;

/// What one step asks of the surroundings.
#[derive(Clone, Copy, Debug, PartialEq, Eq, Structural)]
pub enum Effect {
    /// The cursor is past the last instruction; nothing more happens.
    Halted,
    /// An instruction ran that needs nothing from outside.
    Continue,
    /// A print ran: this byte goes to the output now.
    Output(u8),
    /// The current instruction reads a byte: hand it over with `feed`.
    Input,
}

/// A fault that ends a run.
#[derive(Clone, Copy, Debug, PartialEq, Eq, Structural)]
pub enum RunError {
    /// The data pointer would leave the tape.
    PointerOutOfBounds,
    /// A loop boundary has no partner in the jump map.
    UnresolvedJump,
}

/// The state that execution changes.
pub ghost struct Machine {
    pub cursor: int,
    pub pointer: int,
    pub tape: Seq<u8>,
}

/// `v + n` modulo 256.
pub open spec fn wrap_add(v: u8, n: u8) -> u8 {
    ((v + n) % 256) as u8
}

/// `v - n` modulo 256.
pub open spec fn wrap_sub(v: u8, n: u8) -> u8 {
    ((v - n) % 256) as u8
}

/// What a pointer or cell instruction does to the pointer and the tape, or
/// `None` where the pointer would leave the tape. Other instructions change
/// neither.
pub open spec fn apply(i: IRInstruction, pointer: int, tape: Seq<u8>) -> Option<(int, Seq<u8>)> {
    match i {
        IRInstruction::IncrementPointer(n) => if pointer + n < TOTAL_MEMORY_SIZE {
            Some((pointer + n, tape))
        } else {
            None
        },
        IRInstruction::DecrementPointer(n) => if pointer - n >= 0 {
            Some((pointer - n, tape))
        } else {
            None
        },
        IRInstruction::IncrementByte(n) => Some(
            (pointer, tape.update(pointer, wrap_add(tape[pointer], n))),
        ),
        IRInstruction::DecrementByte(n) => Some(
            (pointer, tape.update(pointer, wrap_sub(tape[pointer], n))),
        ),
        _ => Some((pointer, tape)),
    }
}

/// The machine after a read has stored `byte`: the cell under the pointer
/// holds it and the cursor moves on.
pub open spec fn read_into(m: Machine, byte: u8) -> Machine {
    Machine { cursor: m.cursor + 1, tape: m.tape.update(m.pointer, byte), ..m }
}

/// Where the cursor goes when the loop boundary at `cursor` jumps, if it can.
pub open spec fn jump_target(
    p: Seq<IRInstruction>,
    jumps: Map<usize, usize>,
    cursor: int,
) -> Option<int> {
    if 0 <= cursor <= usize::MAX && jumps.contains_key(cursor as usize) && jumps[cursor as usize]
        < p.len() {
        Some(jumps[cursor as usize] + 1)
    } else {
        None
    }
}

/// One step of execution: the effect, and the machine after it. A read leaves
/// the machine as it is; `feed` completes it. A fault leaves it as it is too.
pub open spec fn step_spec(p: Seq<IRInstruction>, jumps: Map<usize, usize>, m: Machine) -> (
    Result<Effect, RunError>,
    Machine,
) {
    let next = Machine { cursor: m.cursor + 1, ..m };
    if m.cursor < 0 || m.cursor >= p.len() {
        (Ok(Effect::Halted), m)
    } else {
        match p[m.cursor] {
            IRInstruction::IncrementPointer(_)
            | IRInstruction::DecrementPointer(_)
            | IRInstruction::IncrementByte(_)
            | IRInstruction::DecrementByte(_) => match apply(p[m.cursor], m.pointer, m.tape) {
                Some((q, t)) => (Ok(Effect::Continue), Machine { pointer: q, tape: t, ..next }),
                None => (Err(RunError::PointerOutOfBounds), m),
            },
            IRInstruction::PrintByteAsChar => (Ok(Effect::Output(m.tape[m.pointer])), next),
            IRInstruction::ReadInputToByte => (Ok(Effect::Input), m),
            IRInstruction::JumpIfZero => if m.tape[m.pointer] != 0 {
                (Ok(Effect::Continue), next)
            } else {
                match jump_target(p, jumps, m.cursor) {
                    Some(t) => (Ok(Effect::Continue), Machine { cursor: t, ..m }),
                    None => (Err(RunError::UnresolvedJump), m),
                }
            },
            IRInstruction::JumpIfNotZero => if m.tape[m.pointer] == 0 {
                (Ok(Effect::Continue), next)
            } else {
                match jump_target(p, jumps, m.cursor) {
                    Some(t) => (Ok(Effect::Continue), Machine { cursor: t, ..m }),
                    None => (Err(RunError::UnresolvedJump), m),
                }
            },
        }
    }
}

/// The remaining instruction characters, given the one already taken from the lexer.
spec fn with_current(c: char, rest: Seq<char>) -> Seq<char> {
    if c == EOF {
        rest
    } else {
        seq![c] + rest
    }
}

/// A program, its jump map and the machine that runs it.
pub struct Interpreter {
    instruction_pointer: usize,
    memory_pointer: usize,
    memory: Vec<u8>,
    program: Vec<IRInstruction>,
    jump_map: HashMap<usize, usize>,
}

impl Interpreter {
    /// The loaded instructions.
    pub closed spec fn program(&self) -> Seq<IRInstruction> {
        self.program@
    }

    /// Loop boundary index to partner index.
    pub closed spec fn jumps(&self) -> Map<usize, usize> {
        self.jump_map@
    }

    /// Cursor, data pointer and tape.
    pub closed spec fn machine(&self) -> Machine {
        Machine {
            cursor: self.instruction_pointer as int,
            pointer: self.memory_pointer as int,
            tape: self.memory@,
        }
    }

    /// The cursor stays within the program, the pointer on the tape, and the
    /// tape keeps its size.
    pub open spec fn wf(&self) -> bool {
        &&& 0 <= self.machine().cursor <= self.program().len()
        &&& 0 <= self.machine().pointer < TOTAL_MEMORY_SIZE
        &&& self.machine().tape.len() == TOTAL_MEMORY_SIZE
    }

    /// An empty program and a zeroed tape, with cursor and pointer at 0.
    pub fn new() -> (r: Interpreter)
        ensures
            r.wf(),
            r.program() == Seq::<IRInstruction>::empty(),
            r.jumps() == Map::<usize, usize>::empty(),
            r.machine() == (Machine {
                cursor: 0,
                pointer: 0,
                tape: Seq::new(TOTAL_MEMORY_SIZE as nat, |i: int| 0u8),
            }),
    {
        let mut memory: Vec<u8> = Vec::new();
        while memory.len() < TOTAL_MEMORY_SIZE
            invariant
                memory.len() <= TOTAL_MEMORY_SIZE,
                forall|i: int| 0 <= i < memory.len() ==> memory@[i] == 0u8,
            decreases TOTAL_MEMORY_SIZE - memory.len(),
        {
            memory.push(0);
        }
        let r = Interpreter {
            instruction_pointer: 0,
            memory_pointer: 0,
            memory,
            program: Vec::new(),
            jump_map: HashMap::new(),
        };
        assert(r.machine().tape =~= Seq::new(TOTAL_MEMORY_SIZE as nat, |i: int| 0u8));
        r
    }

    /// Compiles the program text `code` and appends it to the program: runs of
    /// `>`, `<`, `+`, `-` fold into counted instructions, comments vanish.
    pub fn load_program(&mut self, code: &str)
        requires
            old(self).wf(),
        ensures
            final(self).wf(),
            final(self).program() == old(self).program() + program_of(code@),
            final(self).jumps() == old(self).jumps(),
            final(self).machine() == old(self).machine(),
    {
        let ghost goal = self.program@ + program_of(code@);
        let mut lexer = Lexer::new();
        lexer.fill(code);
        proof {
            assert(lexer.source() =~= code@);
            assert(lexer.source().subrange(0, lexer.source().len() as int) =~= code@);
        }
        let ghost all = lexer.pending();
        let mut c = lexer.next();
        assert(with_current(c, lexer.pending()) =~= all);
        while c != EOF
            invariant
                lexer.wf(),
                self.wf(),
                self.jumps() == old(self).jumps(),
                self.machine() == old(self).machine(),
                c == EOF ==> lexer.pending().len() == 0,
                c != EOF ==> is_instruction_char(c),
                goal == self.program@ + compile(with_current(c, lexer.pending())),
            decreases with_current(c, lexer.pending()).len(),
        {
            match c {
                '>' | '<' | '+' | '-' => {
                    let ghost rest = lexer.pending();
                    let mut s = lexer.next();
                    let mut streak: u8 = 1;
                    proof {
                        assert(repeat(c, 1) + with_current(s, lexer.pending())
                            =~= with_current(c, rest));
                    }
                    while c == s && streak < MAX_RUN
                        invariant
                            lexer.wf(),
                            is_foldable(c),
                            1 <= streak <= MAX_RUN,
                            with_current(s, lexer.pending()).len() + streak == rest.len() + 1,
                            s == EOF ==> lexer.pending().len() == 0,
                            s != EOF ==> is_instruction_char(s),
                            goal == self.program@ + compile(
                                repeat(c, streak as nat) + with_current(s, lexer.pending()),
                            ),
                        decreases with_current(s, lexer.pending()).len(),
                    {
                        let ghost before = lexer.pending();
                        let ghost k = streak;
                        streak += 1;
                        s = lexer.next();
                        assert(repeat(c, k as nat) + with_current(c, before) =~= repeat(
                            c,
                            streak as nat,
                        ) + with_current(s, lexer.pending()));
                    }
                    proof {
                        lemma_compile_run(c, streak as nat, with_current(s, lexer.pending()));
                    }
                    let inst = if c == '>' {
                        IRInstruction::IncrementPointer(streak)
                    } else if c == '<' {
                        IRInstruction::DecrementPointer(streak)
                    } else if c == '+' {
                        IRInstruction::IncrementByte(streak)
                    } else {
                        IRInstruction::DecrementByte(streak)
                    };
                    assert(inst == folded(c, streak));
                    self.program.push(inst);
                    assert(goal =~= self.program@ + compile(with_current(s, lexer.pending())));
                    c = s;
                },
                _ => {
                    let inst = if c == '.' {
                        IRInstruction::PrintByteAsChar
                    } else if c == ',' {
                        IRInstruction::ReadInputToByte
                    } else if c == '[' {
                        IRInstruction::JumpIfZero
                    } else {
                        IRInstruction::JumpIfNotZero
                    };
                    let ghost rest = lexer.pending();
                    proof {
                        lemma_compile_single(c, rest);
                    }
                    assert(inst == single(c));
                    self.program.push(inst);
                    c = lexer.next();
                    assert(with_current(c, lexer.pending()) =~= rest);
                    assert(goal =~= self.program@ + compile(with_current(c, lexer.pending())));
                },
            }
        }
    }

    /// Matches the loops of the program and records them in the jump map.
    /// A loop-open that is never closed is rejected here, before any step
    /// runs. On an error nothing changes.
    pub fn precompute_jumps(&mut self) -> (r: Result<(), BracketError>)
        requires
            old(self).wf(),
        ensures
            final(self).wf(),
            final(self).program() == old(self).program(),
            final(self).machine() == old(self).machine(),
            r is Ok <==> balanced(old(self).program()),
            r == Err::<(), BracketError>(BracketError::UnmatchedClose) <==> has_unmatched_close(
                old(self).program(),
            ),
            r == Err::<(), BracketError>(BracketError::UnmatchedOpen) <==> (!has_unmatched_close(
                old(self).program(),
            ) && depth(old(self).program(), old(self).program().len() as int) != 0),
            r is Ok ==> resolves(old(self).program(), final(self).jumps()),
            r is Err ==> final(self).jumps() == old(self).jumps(),
    {
        match resolve_jumps(&self.program) {
            Ok(m) => {
                self.jump_map = m;
                Ok(())
            },
            Err(e) => Err(e),
        }
    }

    /// Moves the cursor past the partner of the loop boundary under it.
    fn jump(&mut self) -> (r: Result<Effect, RunError>)
        requires
            old(self).wf(),
            old(self).machine().cursor < old(self).program().len(),
        ensures
            final(self).program() == old(self).program(),
            final(self).jumps() == old(self).jumps(),
            match jump_target(old(self).program(), old(self).jumps(), old(self).machine().cursor) {
                Some(t) => r == Ok::<Effect, RunError>(Effect::Continue) && final(self).machine()
                    == (Machine { cursor: t, ..old(self).machine() }),
                None => r == Err::<Effect, RunError>(RunError::UnresolvedJump)
                    && final(self).machine() == old(self).machine(),
            },
    {
        match self.jump_map.get(&self.instruction_pointer) {
            Some(t) => {
                if *t < self.program.len() {
                    self.instruction_pointer = *t + 1;
                    Ok(Effect::Continue)
                } else {
                    Err(RunError::UnresolvedJump)
                }
            },
            None => Err(RunError::UnresolvedJump),
        }
    }

    /// Runs the instruction at the cursor. A print hands its byte out at once;
    /// a read stops and waits for `feed`, so output and input keep program order.
    pub fn step(&mut self) -> (r: Result<Effect, RunError>)
        requires
            old(self).wf(),
        ensures
            final(self).wf(),
            final(self).program() == old(self).program(),
            final(self).jumps() == old(self).jumps(),
            (r, final(self).machine()) == step_spec(
                old(self).program(),
                old(self).jumps(),
                old(self).machine(),
            ),
    {
        if self.instruction_pointer >= self.program.len() {
            return Ok(Effect::Halted);
        }
        let p = self.memory_pointer;
        match self.program[self.instruction_pointer] {
            IRInstruction::IncrementPointer(n) => {
                if p + (n as usize) < TOTAL_MEMORY_SIZE {
                    self.memory_pointer = p + n as usize;
                } else {
                    return Err(RunError::PointerOutOfBounds);
                }
            },
            IRInstruction::DecrementPointer(n) => {
                if p >= n as usize {
                    self.memory_pointer = p - n as usize;
                } else {
                    return Err(RunError::PointerOutOfBounds);
                }
            },
            IRInstruction::IncrementByte(n) => {
                let v = self.memory[p].wrapping_add(n);
                self.memory.set(p, v);
            },
            IRInstruction::DecrementByte(n) => {
                let v = self.memory[p].wrapping_sub(n);
                self.memory.set(p, v);
            },
            IRInstruction::PrintByteAsChar => {
                self.instruction_pointer += 1;
                return Ok(Effect::Output(self.memory[p]));
            },
            IRInstruction::ReadInputToByte => {
                return Ok(Effect::Input);
            },
            IRInstruction::JumpIfZero => {
                if self.memory[p] == 0 {
                    return self.jump();
                }
            },
            IRInstruction::JumpIfNotZero => {
                if self.memory[p] != 0 {
                    return self.jump();
                }
            },
        }
        self.instruction_pointer += 1;
        Ok(Effect::Continue)
    }

    /// Completes a read: stores `byte` in the current cell and moves on. Does
    /// nothing, and returns `false`, unless the current instruction is a read.
    pub fn feed(&mut self, byte: u8) -> (accepted: bool)
        requires
            old(self).wf(),
        ensures
            final(self).wf(),
            final(self).program() == old(self).program(),
            final(self).jumps() == old(self).jumps(),
            accepted <==> (old(self).machine().cursor < old(self).program().len()
                && old(self).program()[old(self).machine().cursor] is ReadInputToByte),
            accepted ==> final(self).machine() == read_into(old(self).machine(), byte),
            !accepted ==> final(self).machine() == old(self).machine(),
    {
        if self.instruction_pointer < self.program.len() {
            if let IRInstruction::ReadInputToByte = self.program[self.instruction_pointer] {
                self.memory.set(self.memory_pointer, byte);
                self.instruction_pointer += 1;
                return true;
            }
        }
        false
    }

    /// The number of instructions in the program.
    pub fn instruction_count(&self) -> (r: usize)
        ensures
            r == self.program().len(),
    {
        self.program.len()
    }

    /// The instruction at index `i`, if there is one.
    pub fn instruction(&self, i: usize) -> (r: Option<IRInstruction>)
        ensures
            r == if i < self.program().len() {
                Some(self.program()[i as int])
            } else {
                None
            },
    {
        if i < self.program.len() {
            Some(self.program[i])
        } else {
            None
        }
    }

    /// The number of entries in the jump map.
    pub fn jump_count(&self) -> (r: usize)
        ensures
            r == self.jumps().len(),
    {
        self.jump_map.len()
    }

    /// The partner of the loop boundary at index `i`, if the jump map has one.
    pub fn jump_partner(&self, i: usize) -> (r: Option<usize>)
        ensures
            r == if self.jumps().contains_key(i) {
                Some(self.jumps()[i])
            } else {
                None
            },
    {
        match self.jump_map.get(&i) {
            Some(j) => Some(*j),
            None => None,
        }
    }

    /// The position of the data pointer.
    pub fn data_pointer(&self) -> (r: usize)
        ensures
            r == self.machine().pointer,
    {
        self.memory_pointer
    }

    /// The value of cell `i`, if `i` is on the tape.
    pub fn cell(&self, i: usize) -> (r: Option<u8>)
        requires
            self.wf(),
        ensures
            r == if i < TOTAL_MEMORY_SIZE {
                Some(self.machine().tape[i as int])
            } else {
                None
            },
    {
        if i < self.memory.len() {
            Some(self.memory[i])
        } else {
            None
        }
    }
}

} // verus!
