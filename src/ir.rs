use vstd::prelude::*;
use crate::lexer::{instructions, is_instruction_char, lemma_instructions_concat};

verus! {

/// One decoded operation. The four pointer and cell operations carry how many
/// times they repeat.
#[derive(Clone, Copy, Debug, PartialEq, Eq, Structural)]
pub enum IRInstruction {
    IncrementPointer(u8),
    DecrementPointer(u8),
    IncrementByte(u8),
    DecrementByte(u8),
    PrintByteAsChar,
    ReadInputToByte,
    JumpIfZero,
    JumpIfNotZero,
}

/// The longest run that one instruction can carry; a longer run is split.
pub const MAX_RUN: u8 = 255;

/// The characters whose runs fold into one instruction.
pub open spec fn is_foldable(c: char) -> bool {
    c == '>' || c == '<' || c == '+' || c == '-'
}

/// The instruction for a run of `n` copies of the foldable character `c`.
pub open spec fn folded(c: char, n: u8) -> IRInstruction {
    if c == '>' {
        IRInstruction::IncrementPointer(n)
    } else if c == '<' {
        IRInstruction::DecrementPointer(n)
    } else if c == '+' {
        IRInstruction::IncrementByte(n)
    } else {
        IRInstruction::DecrementByte(n)
    }
}

/// The instruction for one of `.`, `,`, `[`, `]`.
pub open spec fn single(c: char) -> IRInstruction {
    if c == '.' {
        IRInstruction::PrintByteAsChar
    } else if c == ',' {
        IRInstruction::ReadInputToByte
    } else if c == '[' {
        IRInstruction::JumpIfZero
    } else {
        IRInstruction::JumpIfNotZero
    }
}

/// How many copies of `c` stand at the front of `cs`.
pub open spec fn run_length(cs: Seq<char>, c: char) -> nat
    decreases cs.len(),
{
    if cs.len() == 0 || cs[0] != c {
        0
    } else {
        1 + run_length(cs.drop_first(), c)
    }
}

/// The length of the run that the first instruction of `compile(cs)` covers.
pub open spec fn fold_length(cs: Seq<char>) -> nat {
    if run_length(cs, cs[0]) > MAX_RUN as nat {
        MAX_RUN as nat
    } else {
        run_length(cs, cs[0])
    }
}

/// The program for a sequence of instruction characters: each maximal run of a
/// foldable character becomes one instruction per `MAX_RUN` copies (the last
/// one takes the remainder), each other character one instruction.
pub open spec fn compile(cs: Seq<char>) -> Seq<IRInstruction>
    decreases cs.len(),
    via compile_decreases
{
    if cs.len() == 0 {
        Seq::empty()
    } else if is_foldable(cs[0]) {
        seq![folded(cs[0], fold_length(cs) as u8)] + compile(cs.skip(fold_length(cs) as int))
    } else {
        seq![single(cs[0])] + compile(cs.drop_first())
    }
}

pub proof fn lemma_run_length_bound(cs: Seq<char>, c: char)
    ensures
        run_length(cs, c) <= cs.len(),
    decreases cs.len(),
{
    if cs.len() > 0 {
        lemma_run_length_bound(cs.drop_first(), c);
    }
}

#[via_fn]
proof fn compile_decreases(cs: Seq<char>) {
    if cs.len() > 0 {
        lemma_run_length_bound(cs, cs[0]);
        if is_foldable(cs[0]) {
            assert(run_length(cs, cs[0]) >= 1);
            assert(cs.skip(fold_length(cs) as int).len() < cs.len());
        } else {
            assert(cs.drop_first().len() < cs.len());
        }
    }
}

/// The program that a source text loads to.
pub open spec fn program_of(text: Seq<char>) -> Seq<IRInstruction> {
    compile(instructions(text))
}

/// `k` copies of `c`.
pub open spec fn repeat(c: char, k: nat) -> Seq<char> {
    Seq::new(k, |i: int| c)
}

pub proof fn lemma_run_length_repeat(c: char, k: nat, rest: Seq<char>)
    ensures
        run_length(repeat(c, k) + rest, c) == k + run_length(rest, c),
    decreases k,
{
    if k > 0 {
        assert((repeat(c, k) + rest).drop_first() =~= repeat(c, (k - 1) as nat) + rest);
        lemma_run_length_repeat(c, (k - 1) as nat, rest);
    } else {
        assert(repeat(c, k) + rest =~= rest);
    }
}

/// A run of `k` copies of `c` that ends before `rest` compiles to one instruction.
pub proof fn lemma_compile_run(c: char, k: nat, rest: Seq<char>)
    requires
        is_foldable(c),
        1 <= k <= MAX_RUN,
        rest.len() == 0 || rest[0] != c || k == MAX_RUN,
    ensures
        compile(repeat(c, k) + rest) == seq![folded(c, k as u8)] + compile(rest),
{
    let cs = repeat(c, k) + rest;
    lemma_run_length_repeat(c, k, rest);
    assert(cs[0] == c);
    assert(fold_length(cs) == k);
    assert(cs.skip(k as int) =~= rest);
}

/// A character that does not fold compiles to one instruction.
pub proof fn lemma_compile_single(c: char, rest: Seq<char>)
    requires
        !is_foldable(c),
    ensures
        compile(seq![c] + rest) == seq![single(c)] + compile(rest),
{
    assert((seq![c] + rest).drop_first() =~= rest);
}

} // verus!
