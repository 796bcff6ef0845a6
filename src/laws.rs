use vstd::prelude::*;
use crate::interpreter::{
    Effect, Machine, RunError, TOTAL_MEMORY_SIZE, apply, read_into, step_spec, wrap_add, wrap_sub,
};
use crate::ir::{
    IRInstruction, MAX_RUN, compile, fold_length, folded, is_foldable, lemma_compile_run,
    lemma_run_length_bound, program_of, repeat, run_length, single,
};
use crate::jumps::{balanced, depth, is_bracket, is_close, is_open, matching, resolves};
use crate::lexer::{
    instructions, is_instruction_char, lemma_instructions_are_valid, lemma_instructions_concat,
};

verus! {

proof fn lemma_no_instructions(x: Seq<char>)
    requires
        forall|i: int| 0 <= i < x.len() ==> !is_instruction_char(#[trigger] x[i]),
    ensures
        instructions(x) == Seq::<char>::empty(),
    decreases x.len(),
{
    if x.len() > 0 {
        assert forall|i: int| 0 <= i < x.drop_first().len() implies !is_instruction_char(
            #[trigger] x.drop_first()[i],
        ) by {
            assert(x.drop_first()[i] == x[i + 1]);
        }
        lemma_no_instructions(x.drop_first());
    }
}

proof fn lemma_all_instructions(x: Seq<char>)
    requires
        forall|i: int| 0 <= i < x.len() ==> is_instruction_char(#[trigger] x[i]),
    ensures
        instructions(x) == x,
    decreases x.len(),
{
    if x.len() > 0 {
        assert forall|i: int| 0 <= i < x.drop_first().len() implies is_instruction_char(
            #[trigger] x.drop_first()[i],
        ) by {
            assert(x.drop_first()[i] == x[i + 1]);
        }
        lemma_all_instructions(x.drop_first());
        assert(seq![x[0]] + x.drop_first() =~= x);
    }
}

/// Comments are transparent: inserting text without instruction characters
/// anywhere in a program leaves the loaded program, and so every run of it,
/// unchanged.
pub proof fn lemma_comment_transparency(a: Seq<char>, x: Seq<char>, b: Seq<char>)
    requires
        forall|i: int| 0 <= i < x.len() ==> !is_instruction_char(#[trigger] x[i]),
    ensures
        program_of(a + x + b) == program_of(a + b),
{
    lemma_no_instructions(x);
    lemma_instructions_concat(a, x);
    lemma_instructions_concat(a + x, b);
    lemma_instructions_concat(a, b);
    assert(instructions(a) + Seq::<char>::empty() =~= instructions(a));
}

/// The effect of running `i` `n` times in a row, or `None` if one of them
/// would move the pointer off the tape.
pub open spec fn apply_repeated(i: IRInstruction, n: nat, pointer: int, tape: Seq<u8>) -> Option<
    (int, Seq<u8>),
>
    decreases n,
{
    if n == 0 {
        Some((pointer, tape))
    } else {
        match apply_repeated(i, (n - 1) as nat, pointer, tape) {
            Some((q, t)) => apply(i, q, t),
            None => None,
        }
    }
}

proof fn lemma_repeated_move(c: char, n: nat, pointer: int, tape: Seq<u8>)
    requires
        c == '>' || c == '<',
        0 <= pointer < TOTAL_MEMORY_SIZE,
    ensures
        c == '>' ==> apply_repeated(folded(c, 1), n, pointer, tape) == if pointer + n
            < TOTAL_MEMORY_SIZE {
            Some((pointer + n, tape))
        } else {
            None::<(int, Seq<u8>)>
        },
        c == '<' ==> apply_repeated(folded(c, 1), n, pointer, tape) == if pointer - n >= 0 {
            Some((pointer - n, tape))
        } else {
            None::<(int, Seq<u8>)>
        },
    decreases n,
{
    if n > 0 {
        lemma_repeated_move(c, (n - 1) as nat, pointer, tape);
    }
}

proof fn lemma_repeated_cell(c: char, n: nat, pointer: int, tape: Seq<u8>)
    requires
        c == '+' || c == '-',
        0 <= pointer < tape.len(),
    ensures
        c == '+' ==> apply_repeated(folded(c, 1), n, pointer, tape) == Some(
            (pointer, tape.update(pointer, ((tape[pointer] + n) % 256) as u8)),
        ),
        c == '-' ==> apply_repeated(folded(c, 1), n, pointer, tape) == Some(
            (pointer, tape.update(pointer, ((tape[pointer] - n) % 256) as u8)),
        ),
    decreases n,
{
    if n == 0 {
        assert(tape.update(pointer, ((tape[pointer] + n) % 256) as u8) =~= tape);
        assert(tape.update(pointer, ((tape[pointer] - n) % 256) as u8) =~= tape);
    } else {
        let m = (n - 1) as nat;
        lemma_repeated_cell(c, m, pointer, tape);
        let v = tape[pointer] as int;
        if c == '+' {
            assert(((((v + m) % 256) as u8) + 1) % 256 == (v + n) % 256) by {
                vstd::arithmetic::div_mod::lemma_add_mod_noop(v + m, 1, 256);
                vstd::arithmetic::div_mod::lemma_mod_bound(v + m, 256);
                vstd::arithmetic::div_mod::lemma_small_mod(1nat, 256nat);
            }
            assert(tape.update(pointer, ((v + m) % 256) as u8).update(pointer, wrap_add(
                ((v + m) % 256) as u8,
                1,
            )) =~= tape.update(pointer, ((v + n) % 256) as u8));
        } else {
            assert(((((v - m) % 256) as u8) - 1) % 256 == (v - n) % 256) by {
                vstd::arithmetic::div_mod::lemma_sub_mod_noop(v - m, 1, 256);
                vstd::arithmetic::div_mod::lemma_mod_bound(v - m, 256);
                vstd::arithmetic::div_mod::lemma_small_mod(1nat, 256nat);
            }
            assert(tape.update(pointer, ((v - m) % 256) as u8).update(pointer, wrap_sub(
                ((v - m) % 256) as u8,
                1,
            )) =~= tape.update(pointer, ((v - n) % 256) as u8));
        }
    }
}

/// Run-length folding is sound: a run of `k` copies of a pointer or cell
/// character, `k` up to the folding bound, loads to one instruction whose
/// effect is that of the single instruction applied `k` times.
pub proof fn lemma_folding_correct(c: char, k: nat, pointer: int, tape: Seq<u8>)
    requires
        is_foldable(c),
        1 <= k <= MAX_RUN,
        0 <= pointer < TOTAL_MEMORY_SIZE,
        tape.len() == TOTAL_MEMORY_SIZE,
    ensures
        program_of(repeat(c, k)) == seq![folded(c, k as u8)],
        apply(folded(c, k as u8), pointer, tape) == apply_repeated(folded(c, 1), k, pointer, tape),
{
    lemma_all_instructions(repeat(c, k));
    lemma_compile_run(c, k, Seq::<char>::empty());
    assert(repeat(c, k) + Seq::<char>::empty() =~= repeat(c, k));
    assert(seq![folded(c, k as u8)] + compile(Seq::<char>::empty()) =~= seq![folded(c, k as u8)]);
    if c == '>' || c == '<' {
        lemma_repeated_move(c, k, pointer, tape);
    } else {
        lemma_repeated_cell(c, k, pointer, tape);
    }
}

/// Cells wrap modulo 256: one increment of a cell holding 255 leaves 0 there,
/// one decrement of a cell holding 0 leaves 255.
pub proof fn lemma_cell_wraparound(p: Seq<IRInstruction>, jumps: Map<usize, usize>, m: Machine)
    requires
        0 <= m.cursor < p.len(),
        0 <= m.pointer < TOTAL_MEMORY_SIZE,
        m.tape.len() == TOTAL_MEMORY_SIZE,
    ensures
        p[m.cursor] == IRInstruction::IncrementByte(1) && m.tape[m.pointer] == 255 ==> step_spec(
            p,
            jumps,
            m,
        ).1.tape[m.pointer] == 0,
        p[m.cursor] == IRInstruction::DecrementByte(1) && m.tape[m.pointer] == 0 ==> step_spec(
            p,
            jumps,
            m,
        ).1.tape[m.pointer] == 255,
{
    assert(wrap_add(255, 1) == 0);
    assert(wrap_sub(0, 1) == 255);
}

/// Input and output keep program order: a print hands out the current cell in
/// the step that runs it, and a read hands nothing out and leaves the machine
/// where it is, so nothing after it runs before its byte is supplied.
pub proof fn lemma_io_in_program_order(p: Seq<IRInstruction>, jumps: Map<usize, usize>, m: Machine)
    requires
        0 <= m.cursor < p.len(),
        0 <= m.pointer < TOTAL_MEMORY_SIZE,
        m.tape.len() == TOTAL_MEMORY_SIZE,
    ensures
        p[m.cursor] is PrintByteAsChar ==> step_spec(p, jumps, m) == (
            Ok::<Effect, RunError>(Effect::Output(m.tape[m.pointer])),
            Machine { cursor: m.cursor + 1, ..m },
        ),
        p[m.cursor] is ReadInputToByte ==> step_spec(p, jumps, m) == (
            Ok::<Effect, RunError>(Effect::Input),
            m,
        ),
        (step_spec(p, jumps, m).0 matches Ok(Effect::Output(_))) <==> p[m.cursor] is PrintByteAsChar,
        step_spec(p, jumps, m).0 == Ok::<Effect, RunError>(Effect::Input)
            <==> p[m.cursor] is ReadInputToByte,
{
}

/// Loop-opens among the first `k` instructions of `p`.
pub open spec fn count_opens(p: Seq<IRInstruction>, k: int) -> nat
    decreases k,
{
    if k <= 0 {
        0
    } else {
        count_opens(p, k - 1) + if is_open(p[k - 1]) { 1nat } else { 0nat }
    }
}

/// Loop-closes among the first `k` instructions of `p`.
pub open spec fn count_closes(p: Seq<IRInstruction>, k: int) -> nat
    decreases k,
{
    if k <= 0 {
        0
    } else {
        count_closes(p, k - 1) + if is_close(p[k - 1]) { 1nat } else { 0nat }
    }
}

/// The indices of the loop boundaries among the first `k` instructions of `p`.
pub open spec fn bracket_indices(p: Seq<IRInstruction>, k: int) -> Set<usize> {
    Set::new(|i: usize| i < k && is_bracket(p[i as int]))
}

proof fn lemma_depth_counts(p: Seq<IRInstruction>, k: int)
    ensures
        depth(p, k) == count_opens(p, k) - count_closes(p, k),
    decreases k,
{
    if k > 0 {
        lemma_depth_counts(p, k - 1);
    }
}

proof fn lemma_bracket_indices(p: Seq<IRInstruction>, k: int)
    requires
        0 <= k <= p.len(),
        p.len() <= usize::MAX,
    ensures
        bracket_indices(p, k).finite(),
        bracket_indices(p, k).len() == count_opens(p, k) + count_closes(p, k),
    decreases k,
{
    if k == 0 {
        assert(bracket_indices(p, k) =~= Set::<usize>::empty());
    } else {
        lemma_bracket_indices(p, k - 1);
        let prev = bracket_indices(p, k - 1);
        if is_bracket(p[k - 1]) {
            assert(bracket_indices(p, k) =~= prev.insert((k - 1) as usize));
        } else {
            assert(bracket_indices(p, k) =~= prev);
        }
    }
}

proof fn lemma_matching_unique(p: Seq<IRInstruction>, i: int, j: int, i2: int, j2: int)
    ensures
        matching(p, i, j) && matching(p, i, j2) ==> j == j2,
        matching(p, i, j) && matching(p, i2, j) ==> i == i2,
{
    if matching(p, i, j) && matching(p, i, j2) && j != j2 {
        if j < j2 {
            assert(depth(p, j + 1) > depth(p, i));
        } else {
            assert(depth(p, j2 + 1) > depth(p, i));
        }
    }
    if matching(p, i, j) && matching(p, i2, j) && i != i2 {
        if i < i2 {
            assert(depth(p, i2) > depth(p, i));
        } else {
            assert(depth(p, i) > depth(p, i2));
        }
    }
}

/// Loop balance: when a program has N loop-opens and N loop-closes, correctly
/// nested, its jump map has exactly N two-way entries: every key leads to a
/// partner that leads back, and there are 2N keys.
pub proof fn lemma_loop_balance(p: Seq<IRInstruction>, m: Map<usize, usize>)
    requires
        p.len() <= usize::MAX,
        balanced(p),
        resolves(p, m),
    ensures
        count_opens(p, p.len() as int) == count_closes(p, p.len() as int),
        m.dom() == bracket_indices(p, p.len() as int),
        m.len() == 2 * count_opens(p, p.len() as int),
        forall|i: usize| #[trigger]
            m.contains_key(i) ==> m.contains_key(m[i]) && m[m[i]] == i,
{
    lemma_depth_counts(p, p.len() as int);
    lemma_bracket_indices(p, p.len() as int);
    assert(m.dom() =~= bracket_indices(p, p.len() as int));
    assert forall|i: usize| #[trigger] m.contains_key(i) implies m.contains_key(m[i]) && m[m[i]]
        == i by {
        let j = m[i];
        assert(m.contains_key(j));
        let k = m[j];
        lemma_matching_unique(p, i as int, j as int, k as int, j as int);
        lemma_matching_unique(p, j as int, i as int, j as int, k as int);
        lemma_matching_unique(p, k as int, j as int, i as int, j as int);
        lemma_matching_unique(p, j as int, k as int, j as int, i as int);
    }
}

/// How many times `c` occurs in `s`.
pub open spec fn char_count(s: Seq<char>, c: char) -> nat
    decreases s.len(),
{
    if s.len() == 0 {
        0
    } else {
        (if s[0] == c { 1nat } else { 0nat }) + char_count(s.drop_first(), c)
    }
}

spec fn opens_in(p: Seq<IRInstruction>) -> nat
    decreases p.len(),
{
    if p.len() == 0 {
        0
    } else {
        (if is_open(p[0]) { 1nat } else { 0nat }) + opens_in(p.drop_first())
    }
}

spec fn closes_in(p: Seq<IRInstruction>) -> nat
    decreases p.len(),
{
    if p.len() == 0 {
        0
    } else {
        (if is_close(p[0]) { 1nat } else { 0nat }) + closes_in(p.drop_first())
    }
}

proof fn lemma_ir_counts_single(x: IRInstruction)
    ensures
        opens_in(seq![x]) == if is_open(x) { 1nat } else { 0nat },
        closes_in(seq![x]) == if is_close(x) { 1nat } else { 0nat },
{
    assert(seq![x].drop_first() =~= Seq::<IRInstruction>::empty());
    assert(opens_in(Seq::<IRInstruction>::empty()) == 0);
    assert(closes_in(Seq::<IRInstruction>::empty()) == 0);
}

proof fn lemma_ir_counts_concat(a: Seq<IRInstruction>, b: Seq<IRInstruction>)
    ensures
        opens_in(a + b) == opens_in(a) + opens_in(b),
        closes_in(a + b) == closes_in(a) + closes_in(b),
    decreases a.len(),
{
    if a.len() == 0 {
        assert(a + b =~= b);
    } else {
        assert((a + b).drop_first() =~= a.drop_first() + b);
        lemma_ir_counts_concat(a.drop_first(), b);
    }
}

proof fn lemma_char_count_single(x: char, c: char)
    ensures
        char_count(seq![x], c) == if x == c { 1nat } else { 0nat },
{
    assert(seq![x].drop_first() =~= Seq::<char>::empty());
    assert(char_count(Seq::<char>::empty(), c) == 0);
}

proof fn lemma_char_count_concat(a: Seq<char>, b: Seq<char>, c: char)
    ensures
        char_count(a + b, c) == char_count(a, c) + char_count(b, c),
    decreases a.len(),
{
    if a.len() == 0 {
        assert(a + b =~= b);
    } else {
        assert((a + b).drop_first() =~= a.drop_first() + b);
        lemma_char_count_concat(a.drop_first(), b, c);
    }
}

proof fn lemma_prefix_counts(p: Seq<IRInstruction>, k: int)
    requires
        0 <= k <= p.len(),
    ensures
        count_opens(p, k) == opens_in(p.take(k)),
        count_closes(p, k) == closes_in(p.take(k)),
    decreases k,
{
    if k > 0 {
        let last = seq![p[k - 1]];
        lemma_prefix_counts(p, k - 1);
        assert(p.take(k) =~= p.take(k - 1) + last);
        lemma_ir_counts_concat(p.take(k - 1), last);
        lemma_ir_counts_single(p[k - 1]);
    } else {
        assert(p.take(k) =~= Seq::<IRInstruction>::empty());
    }
}

proof fn lemma_instructions_keep_brackets(s: Seq<char>, c: char)
    requires
        is_instruction_char(c),
    ensures
        char_count(instructions(s), c) == char_count(s, c),
    decreases s.len(),
{
    if s.len() > 0 {
        lemma_instructions_keep_brackets(s.drop_first(), c);
        if is_instruction_char(s[0]) {
            let first = seq![s[0]];
            lemma_char_count_concat(first, instructions(s.drop_first()), c);
            lemma_char_count_single(s[0], c);
        } else {
            assert(s[0] != c);
        }
    }
}

proof fn lemma_run_is_uniform(cs: Seq<char>, c: char, i: int)
    requires
        0 <= i < run_length(cs, c),
    ensures
        cs[i] == c,
    decreases cs.len(),
{
    assert(cs.len() > 0 && cs[0] == c);
    lemma_run_length_bound(cs.drop_first(), c);
    if i > 0 {
        lemma_run_is_uniform(cs.drop_first(), c, i - 1);
        assert(cs.drop_first()[i - 1] == cs[i]);
    }
}

proof fn lemma_char_count_absent(s: Seq<char>, c: char)
    requires
        forall|i: int| 0 <= i < s.len() ==> #[trigger] s[i] != c,
    ensures
        char_count(s, c) == 0,
    decreases s.len(),
{
    if s.len() > 0 {
        assert forall|i: int| 0 <= i < s.drop_first().len() implies #[trigger] s.drop_first()[i]
            != c by {
            assert(s.drop_first()[i] == s[i + 1]);
        }
        lemma_char_count_absent(s.drop_first(), c);
    }
}

proof fn lemma_compile_counts(cs: Seq<char>)
    requires
        forall|i: int| 0 <= i < cs.len() ==> is_instruction_char(#[trigger] cs[i]),
    ensures
        opens_in(compile(cs)) == char_count(cs, '['),
        closes_in(compile(cs)) == char_count(cs, ']'),
    decreases cs.len(),
{
    if cs.len() > 0 {
        let c = cs[0];
        if is_foldable(c) {
            let k = fold_length(cs) as int;
            lemma_run_length_bound(cs, c);
            assert(run_length(cs, c) >= 1);
            let head = cs.take(k);
            let rest = cs.skip(k);
            assert forall|i: int| 0 <= i < head.len() implies #[trigger] head[i] == c by {
                lemma_run_is_uniform(cs, c, i);
            }
            lemma_char_count_absent(head, '[');
            lemma_char_count_absent(head, ']');
            assert(cs =~= head + rest);
            lemma_char_count_concat(head, rest, '[');
            lemma_char_count_concat(head, rest, ']');
            assert forall|i: int| 0 <= i < rest.len() implies is_instruction_char(
                #[trigger] rest[i],
            ) by {
                assert(rest[i] == cs[i + k]);
            }
            lemma_compile_counts(rest);
            let first = seq![folded(c, k as u8)];
            lemma_ir_counts_concat(first, compile(rest));
            lemma_ir_counts_single(folded(c, k as u8));
            assert(compile(cs) == first + compile(rest));
        } else {
            let rest = cs.drop_first();
            assert forall|i: int| 0 <= i < rest.len() implies is_instruction_char(
                #[trigger] rest[i],
            ) by {
                assert(rest[i] == cs[i + 1]);
            }
            lemma_compile_counts(rest);
            let first = seq![single(c)];
            lemma_ir_counts_concat(first, compile(rest));
            lemma_ir_counts_single(single(c));
            assert(compile(cs) == first + compile(rest));
        }
    }
}

/// Loop balance, stated on source text: when the loops of a program text are
/// correctly nested, it holds as many `[` as `]`, and its jump map has exactly
/// one two-way entry for each `[`, so twice as many keys.
pub proof fn lemma_source_loop_balance(text: Seq<char>, m: Map<usize, usize>)
    requires
        program_of(text).len() <= usize::MAX,
        balanced(program_of(text)),
        resolves(program_of(text), m),
    ensures
        char_count(text, '[') == char_count(text, ']'),
        m.len() == 2 * char_count(text, '['),
        forall|i: usize| #[trigger] m.contains_key(i) ==> m.contains_key(m[i]) && m[m[i]] == i,
{
    let p = program_of(text);
    lemma_loop_balance(p, m);
    lemma_prefix_counts(p, p.len() as int);
    assert(p.take(p.len() as int) =~= p);
    lemma_instructions_are_valid(text);
    lemma_compile_counts(instructions(text));
    lemma_instructions_keep_brackets(text, '[');
    lemma_instructions_keep_brackets(text, ']');
}

/// `q` is `p` with non-instruction characters inserted anywhere, any number
/// of them at each place.
pub open spec fn with_comments(p: Seq<char>, q: Seq<char>) -> bool
    decreases q.len(),
{
    if q.len() == 0 {
        p.len() == 0
    } else if !is_instruction_char(q[0]) && with_comments(p, q.drop_first()) {
        true
    } else {
        p.len() > 0 && p[0] == q[0] && with_comments(p.drop_first(), q.drop_first())
    }
}

/// Comments are transparent wherever they stand: a text with comments
/// inserted at any places yields the same instruction characters, so the
/// lexer hands out the same sequence, and it loads to the same program.
pub proof fn lemma_comments_anywhere(p: Seq<char>, q: Seq<char>)
    requires
        with_comments(p, q),
    ensures
        instructions(q) == instructions(p),
        program_of(q) == program_of(p),
    decreases q.len(),
{
    if q.len() > 0 {
        if !is_instruction_char(q[0]) && with_comments(p, q.drop_first()) {
            lemma_comments_anywhere(p, q.drop_first());
        } else {
            lemma_comments_anywhere(p.drop_first(), q.drop_first());
        }
    }
}

proof fn lemma_run_length_concat(a: Seq<char>, b: Seq<char>, c: char)
    requires
        run_length(a, c) < a.len() || b.len() == 0 || b[0] != c,
    ensures
        run_length(a + b, c) == run_length(a, c),
    decreases a.len(),
{
    if a.len() == 0 {
        assert(a + b =~= b);
    } else if a[0] == c {
        assert((a + b).drop_first() =~= a.drop_first() + b);
        lemma_run_length_concat(a.drop_first(), b, c);
    }
}

/// Compiling splits where two texts meet, unless a run would cross the seam.
pub proof fn lemma_compile_concat(a: Seq<char>, b: Seq<char>)
    requires
        a.len() == 0 || b.len() == 0 || a.last() != b[0],
    ensures
        compile(a + b) == compile(a) + compile(b),
    decreases a.len(),
{
    if a.len() == 0 {
        assert(a + b =~= b);
        assert(compile(a) + compile(b) =~= compile(b));
    } else if b.len() == 0 {
        assert(a + b =~= a);
        assert(compile(a) + compile(b) =~= compile(a));
    } else {
        let c = a[0];
        assert((a + b)[0] == c);
        if is_foldable(c) {
            lemma_run_length_bound(a, c);
            if run_length(a, c) == a.len() {
                lemma_run_is_uniform(a, c, a.len() - 1);
            }
            lemma_run_length_concat(a, b, c);
            let k = fold_length(a) as int;
            assert(fold_length(a + b) == k);
            assert(run_length(a, c) >= 1);
            let rest = a.skip(k);
            assert((a + b).skip(k) =~= rest + b);
            if rest.len() > 0 {
                assert(rest.last() == a.last());
            }
            lemma_compile_concat(rest, b);
            let x = seq![folded(c, k as u8)];
            assert(compile(a + b) == x + compile(rest + b));
            assert(compile(a) == x + compile(rest));
            assert(x + (compile(rest) + compile(b)) =~= (x + compile(rest)) + compile(b));
        } else {
            let rest = a.drop_first();
            assert((a + b).drop_first() =~= rest + b);
            if rest.len() > 0 {
                assert(rest.last() == a.last());
            }
            lemma_compile_concat(rest, b);
            let x = seq![single(c)];
            assert(x + (compile(rest) + compile(b)) =~= (x + compile(rest)) + compile(b));
        }
    }
}

/// Run-length folding in any context: a maximal run of `k` copies of a
/// pointer or cell character, `k` up to the folding bound, becomes exactly one
/// instruction carrying `k`, whatever stands before and after it. A run that
/// reaches the bound ends its instruction even if more copies follow.
pub proof fn lemma_folding_in_context(a: Seq<char>, c: char, k: nat, b: Seq<char>)
    requires
        is_foldable(c),
        1 <= k <= MAX_RUN,
        a.len() == 0 || a.last() != c,
        b.len() == 0 || b[0] != c || k == MAX_RUN,
    ensures
        compile(a + repeat(c, k) + b) == compile(a) + seq![folded(c, k as u8)] + compile(b),
{
    let r = repeat(c, k) + b;
    assert(r[0] == c);
    lemma_compile_concat(a, r);
    assert(a + repeat(c, k) + b =~= a + r);
    lemma_compile_run(c, k, b);
    assert(compile(a) + (seq![folded(c, k as u8)] + compile(b)) =~= compile(a) + seq![
        folded(c, k as u8),
    ] + compile(b));
}

/// `n` calls of `step` from `m`, stopping at the first fault: the last result
/// and the machine it leaves.
pub open spec fn steps(p: Seq<IRInstruction>, jumps: Map<usize, usize>, m: Machine, n: nat) -> (
    Result<Effect, RunError>,
    Machine,
)
    decreases n,
{
    if n == 0 {
        (Ok(Effect::Continue), m)
    } else {
        let (r, m2) = steps(p, jumps, m, (n - 1) as nat);
        if r is Err {
            (r, m2)
        } else {
            step_spec(p, jumps, m2)
        }
    }
}

/// Comments change no run: a text with comments inserted anywhere behaves,
/// step for step, as the text without them.
pub proof fn lemma_comments_change_no_run(
    p: Seq<char>,
    q: Seq<char>,
    jumps: Map<usize, usize>,
    m: Machine,
    n: nat,
)
    requires
        with_comments(p, q),
    ensures
        steps(program_of(q), jumps, m, n) == steps(program_of(p), jumps, m, n),
{
    lemma_comments_anywhere(p, q);
}

proof fn lemma_steps_of_singles(c: char, k: nat, jumps: Map<usize, usize>, m: Machine, n: nat)
    requires
        is_foldable(c),
        n <= k,
        m.cursor == 0,
    ensures
        ({
            let p = Seq::new(k, |i: int| folded(c, 1));
            match apply_repeated(folded(c, 1), n, m.pointer, m.tape) {
                Some((q, t)) => steps(p, jumps, m, n) == (
                    Ok::<Effect, RunError>(Effect::Continue),
                    Machine { cursor: n as int, pointer: q, tape: t },
                ),
                None => steps(p, jumps, m, n).0 == Err::<Effect, RunError>(
                    RunError::PointerOutOfBounds,
                ),
            }
        }),
    decreases n,
{
    if n == 0 {
        assert(m == Machine { cursor: 0, pointer: m.pointer, tape: m.tape });
    } else {
        lemma_steps_of_singles(c, k, jumps, m, (n - 1) as nat);
    }
}

/// Run-length folding seen through execution: one step of a folded
/// instruction of count `k` faults exactly when `k` steps of the single
/// instruction do, and otherwise leaves the same pointer and tape.
pub proof fn lemma_folding_over_steps(c: char, k: nat, jumps: Map<usize, usize>, m: Machine)
    requires
        is_foldable(c),
        1 <= k <= MAX_RUN,
        m.cursor == 0,
        0 <= m.pointer < TOTAL_MEMORY_SIZE,
        m.tape.len() == TOTAL_MEMORY_SIZE,
    ensures
        ({
            let folded_run = steps(seq![folded(c, k as u8)], jumps, m, 1);
            let singles = steps(Seq::new(k, |i: int| folded(c, 1)), jumps, m, k);
            &&& folded_run.0 == singles.0
            &&& folded_run.0 is Ok ==> folded_run.1.pointer == singles.1.pointer
                && folded_run.1.tape == singles.1.tape
        }),
{
    lemma_folding_correct(c, k, m.pointer, m.tape);
    lemma_steps_of_singles(c, k, jumps, m, k);
    assert(steps(seq![folded(c, k as u8)], jumps, m, 0) == (
        Ok::<Effect, RunError>(Effect::Continue),
        m,
    ));
}

/// One exchange with the outside during a run.
pub ghost enum IoEvent {
    Read(u8),
    Write(u8),
}

/// The reads and writes of a run that steps at most `fuel` times from `m`,
/// reading from `input`. Each print writes in the step that runs it; each read
/// takes the next input byte before anything after it runs. The run ends when
/// the program halts or faults, or a read finds no input left.
pub open spec fn io_trace(
    p: Seq<IRInstruction>,
    jumps: Map<usize, usize>,
    m: Machine,
    input: Seq<u8>,
    fuel: nat,
) -> Seq<IoEvent>
    decreases fuel,
{
    if fuel == 0 {
        Seq::empty()
    } else {
        let (r, m2) = step_spec(p, jumps, m);
        match r {
            Ok(Effect::Output(b)) => seq![IoEvent::Write(b)] + io_trace(
                p,
                jumps,
                m2,
                input,
                (fuel - 1) as nat,
            ),
            Ok(Effect::Input) => if input.len() == 0 {
                Seq::empty()
            } else {
                seq![IoEvent::Read(input[0])] + io_trace(
                    p,
                    jumps,
                    read_into(m, input[0]),
                    input.drop_first(),
                    (fuel - 1) as nat,
                )
            },
            Ok(Effect::Continue) => io_trace(p, jumps, m2, input, (fuel - 1) as nat),
            _ => Seq::empty(),
        }
    }
}

/// Each byte read, then written back: read x, write x, read y, write y, ...
pub open spec fn echoed(input: Seq<u8>) -> Seq<IoEvent>
    decreases input.len(),
{
    if input.len() == 0 {
        Seq::empty()
    } else {
        seq![IoEvent::Read(input[0]), IoEvent::Write(input[0])] + echoed(input.drop_first())
    }
}

/// A program that alternates reads and prints, `n` of each.
pub open spec fn alternates_read_print(p: Seq<IRInstruction>, n: nat) -> bool {
    &&& p.len() == 2 * n
    &&& forall|i: int|
        0 <= i < p.len() ==> #[trigger] p[i] == if i % 2 == 0 {
            IRInstruction::ReadInputToByte
        } else {
            IRInstruction::PrintByteAsChar
        }
}

proof fn lemma_echo_from(
    p: Seq<IRInstruction>,
    n: nat,
    jumps: Map<usize, usize>,
    m: Machine,
    input: Seq<u8>,
    r: nat,
)
    requires
        alternates_read_print(p, n),
        r <= n,
        m.cursor == 2 * (n - r),
        0 <= m.pointer < m.tape.len(),
        input.len() == r,
    ensures
        io_trace(p, jumps, m, input, 2 * r) == echoed(input),
    decreases r,
{
    if r > 0 {
        let x = input[0];
        let c = m.cursor;
        assert(c % 2 == 0);
        assert((c + 1) % 2 == 1);
        assert(p[c] == IRInstruction::ReadInputToByte);
        assert(p[c + 1] == IRInstruction::PrintByteAsChar);
        let m1 = read_into(m, x);
        assert(m1.tape[m1.pointer] == x);
        let m2 = Machine { cursor: m1.cursor + 1, ..m1 };
        lemma_echo_from(p, n, jumps, m2, input.drop_first(), (r - 1) as nat);
        assert(io_trace(p, jumps, m1, input.drop_first(), (2 * r - 1) as nat) == seq![
            IoEvent::Write(x),
        ] + io_trace(p, jumps, m2, input.drop_first(), (2 * r - 2) as nat));
        assert(seq![IoEvent::Read(x)] + (seq![IoEvent::Write(x)] + echoed(input.drop_first()))
            =~= seq![IoEvent::Read(x), IoEvent::Write(x)] + echoed(input.drop_first()));
    }
}

/// Input and output keep program order over a whole run: a program that
/// alternates reads and prints, run on input bytes x, y, ..., reads x, writes
/// x, reads y, writes y, and so on, nothing batched or reordered.
pub proof fn lemma_alternating_io_order(
    p: Seq<IRInstruction>,
    n: nat,
    jumps: Map<usize, usize>,
    m: Machine,
    input: Seq<u8>,
)
    requires
        alternates_read_print(p, n),
        m.cursor == 0,
        0 <= m.pointer < TOTAL_MEMORY_SIZE,
        m.tape.len() == TOTAL_MEMORY_SIZE,
        input.len() == n,
    ensures
        io_trace(p, jumps, m, input, 2 * n) == echoed(input),
{
    lemma_echo_from(p, n, jumps, m, input, n);
}

} // verus!
