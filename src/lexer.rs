use vstd::prelude::*;
use vstd::std_specs::iter::IteratorSpec;

verus! {

/// The character that `Lexer::next` returns once the source is exhausted.
/// It is not an instruction character.
pub const EOF: char = '@';

/// Whether `c` belongs to the instruction alphabet `><+-.,[]`.
pub open spec fn is_instruction_char(c: char) -> bool {
    c == '>' || c == '<' || c == '+' || c == '-' || c == '.' || c == ',' || c == '['
        || c == ']'
}

/// The instruction characters of `s`, in order; every other character is a comment.
pub open spec fn instructions(s: Seq<char>) -> Seq<char>
    decreases s.len(),
{
    if s.len() == 0 {
        Seq::empty()
    } else if is_instruction_char(s[0]) {
        seq![s[0]] + instructions(s.drop_first())
    } else {
        instructions(s.drop_first())
    }
}

/// The index of the first instruction character of `s` at or after `p`, or
/// `s.len()` if there is none.
pub open spec fn first_instruction_at(s: Seq<char>, p: int) -> int
    decreases s.len() - p,
{
    if p >= s.len() {
        s.len() as int
    } else if is_instruction_char(s[p]) {
        p
    } else {
        first_instruction_at(s, p + 1)
    }
}

/// Every character that `instructions` keeps is an instruction character.
pub proof fn lemma_instructions_are_valid(s: Seq<char>)
    ensures
        forall|i: int|
            0 <= i < instructions(s).len() ==> is_instruction_char(#[trigger] instructions(s)[i]),
    decreases s.len(),
{
    if s.len() > 0 {
        let rest = instructions(s.drop_first());
        lemma_instructions_are_valid(s.drop_first());
        if is_instruction_char(s[0]) {
            assert forall|i: int| 0 <= i < instructions(s).len() implies is_instruction_char(
                #[trigger] instructions(s)[i],
            ) by {
                if i > 0 {
                    assert(instructions(s)[i] == rest[i - 1]);
                }
            }
        }
    }
}

/// Filtering distributes over concatenation.
pub proof fn lemma_instructions_concat(a: Seq<char>, b: Seq<char>)
    ensures
        instructions(a + b) == instructions(a) + instructions(b),
    decreases a.len(),
{
    if a.len() == 0 {
        assert(a + b =~= b);
        assert(instructions(a) + instructions(b) =~= instructions(b));
    } else {
        assert((a + b).drop_first() =~= a.drop_first() + b);
        lemma_instructions_concat(a.drop_first(), b);
        if is_instruction_char(a[0]) {
            assert(seq![a[0]] + (instructions(a.drop_first()) + instructions(b)) =~= (seq![a[0]]
                + instructions(a.drop_first())) + instructions(b));
        }
    }
}

/// A cursor over program text that yields its instruction characters one by one.
pub struct Lexer {
    code: Vec<char>,
    position_in_code: usize,
}

impl Lexer {
    /// The whole text loaded so far.
    pub closed spec fn source(&self) -> Seq<char> {
        self.code@
    }

    /// How many characters of `source()` have been consumed.
    pub closed spec fn position(&self) -> nat {
        self.position_in_code as nat
    }

    /// The cursor stays within the source.
    pub open spec fn wf(&self) -> bool {
        self.position() <= self.source().len()
    }

    /// The instruction characters that `next` has yet to return.
    pub open spec fn pending(&self) -> Seq<char> {
        instructions(self.source().subrange(self.position() as int, self.source().len() as int))
    }

    /// A lexer over empty text.
    pub fn new() -> (r: Lexer)
        ensures
            r.wf(),
            r.source() == Seq::<char>::empty(),
            r.position() == 0,
    {
        Lexer { code: Vec::new(), position_in_code: 0 }
    }

    /// Appends the characters of `code` to the source.
    pub fn fill(&mut self, code: &str)
        requires
            old(self).wf(),
        ensures
            final(self).wf(),
            final(self).source() == old(self).source() + code@,
            final(self).position() == old(self).position(),
    {
        let ghost start = self.code@;
        let mut it = code.chars();
        assert(it.remaining() == code@);
        loop
            invariant
                self.position_in_code <= start.len(),
                self.position_in_code == old(self).position_in_code,
                start == old(self).code@,
                self.code@ + it.remaining() == start + code@,
                it.decrease() is Some,
            ensures
                self.code@ == start + code@,
            decreases it.decrease()->0,
        {
            let ghost before = it.remaining();
            match it.next() {
                Some(ch) => {
                    self.code.push(ch);
                    assert(self.code@ + it.remaining() =~= start + code@) by {
                        assert(before =~= seq![ch] + it.remaining());
                    }
                },
                None => {
                    assert(self.code@ =~= self.code@ + it.remaining());
                    break;
                },
            }
        }
    }

    /// Whether `inst` is one of the eight instruction characters.
    fn is_valid_instruction(&self, inst: char) -> (r: bool)
        ensures
            r == is_instruction_char(inst),
    {
        match inst {
            '>' | '<' | '+' | '-' | '.' | ',' | '[' | ']' => true,
            _ => false,
        }
    }

    /// Skips comment characters and returns the next instruction character,
    /// or `EOF` once none is left.
    pub fn next(&mut self) -> (r: char)
        requires
            old(self).wf(),
        ensures
            final(self).wf(),
            final(self).source() == old(self).source(),
            old(self).pending().len() == 0 ==> r == EOF && final(self).pending().len() == 0,
            old(self).pending().len() > 0 ==> r == old(self).pending()[0]
                && final(self).pending() == old(self).pending().drop_first(),
            r == EOF <==> old(self).pending().len() == 0,
            r != EOF ==> is_instruction_char(r),
            old(self).position() <= final(self).position(),
            old(self).position() == old(self).source().len() ==> r == EOF && final(self).position()
                == old(self).position(),
            r == EOF ==> final(self).position() == final(self).source().len(),
            r != EOF ==> ({
                let q = first_instruction_at(old(self).source(), old(self).position() as int);
                &&& q < old(self).source().len()
                &&& r == old(self).source()[q]
                &&& final(self).position() == q + 1
            }),
    {
        let ghost s = self.code@;
        let ghost start = self.position_in_code as int;
        let ghost target = instructions(s.subrange(start, s.len() as int));
        while self.position_in_code < self.code.len() && !self.is_valid_instruction(
            self.code[self.position_in_code],
        )
            invariant
                self.code@ == s,
                start <= self.position_in_code <= s.len(),
                instructions(s.subrange(self.position_in_code as int, s.len() as int)) == target,
                first_instruction_at(s, self.position_in_code as int) == first_instruction_at(
                    s,
                    start,
                ),
            decreases s.len() - self.position_in_code,
        {
            assert(s.subrange(self.position_in_code as int, s.len() as int).drop_first()
                =~= s.subrange(self.position_in_code + 1, s.len() as int));
            self.position_in_code += 1;
        }
        proof {
            lemma_instructions_are_valid(target);
        }
        if self.position_in_code >= self.code.len() {
            assert(s.subrange(self.position_in_code as int, s.len() as int) =~= Seq::<char>::empty());
            return EOF;
        }
        let r = self.code[self.position_in_code];
        assert(s.subrange(self.position_in_code as int, s.len() as int).drop_first()
            =~= s.subrange(self.position_in_code + 1, s.len() as int));
        self.position_in_code += 1;
        r
    }
}

} // verus!
