use vstd::prelude::*;
use std::collections::HashMap;
use crate::ir::IRInstruction;

verus! {

broadcast use vstd::std_specs::hash::group_hash_axioms;

/// Why a program's loops cannot be matched.
#[derive(Clone, Copy, Debug, PartialEq, Eq, Structural)]
pub enum BracketError {
    /// A loop-close with no loop-open before it.
    UnmatchedClose,
    /// A loop-open that is never closed.
    UnmatchedOpen,
}

pub open spec fn is_open(i: IRInstruction) -> bool {
    i is JumpIfZero
}

pub open spec fn is_close(i: IRInstruction) -> bool {
    i is JumpIfNotZero
}

pub open spec fn is_bracket(i: IRInstruction) -> bool {
    is_open(i) || is_close(i)
}

/// Loop-opens minus loop-closes among the first `k` instructions of `p`.
pub open spec fn depth(p: Seq<IRInstruction>, k: int) -> int
    decreases k,
{
    if k <= 0 {
        0
    } else if is_open(p[k - 1]) {
        depth(p, k - 1) + 1
    } else if is_close(p[k - 1]) {
        depth(p, k - 1) - 1
    } else {
        depth(p, k - 1)
    }
}

/// Some loop-close comes before its loop-open.
pub open spec fn has_unmatched_close(p: Seq<IRInstruction>) -> bool {
    exists|k: int| 0 <= k <= p.len() && #[trigger] depth(p, k) < 0
}

/// The loops of `p` nest like matched parentheses.
pub open spec fn balanced(p: Seq<IRInstruction>) -> bool {
    !has_unmatched_close(p) && depth(p, p.len() as int) == 0
}

/// The loop-open at `i` is closed by the loop-close at `j`.
pub open spec fn matching(p: Seq<IRInstruction>, i: int, j: int) -> bool {
    &&& 0 <= i < j < p.len()
    &&& is_open(p[i])
    &&& is_close(p[j])
    &&& depth(p, j + 1) == depth(p, i)
    &&& forall|k: int| i < k <= j ==> #[trigger] depth(p, k) > depth(p, i)
}

/// `m` has one entry for each loop boundary of `p`, leading to its partner.
pub open spec fn resolves(p: Seq<IRInstruction>, m: Map<usize, usize>) -> bool {
    &&& forall|i: usize| #[trigger]
        m.contains_key(i) <==> (i < p.len() && is_bracket(p[i as int]))
    &&& forall|i: usize| #[trigger]
        m.contains_key(i) ==> matching(p, i as int, m[i] as int) || matching(
            p,
            m[i] as int,
            i as int,
        )
}

/// Matches every loop-open of `program` with its loop-close in one pass.
pub fn resolve_jumps(program: &Vec<IRInstruction>) -> (r: Result<HashMap<usize, usize>, BracketError>)
    ensures
        r is Ok <==> balanced(program@),
        r == Err::<HashMap<usize, usize>, BracketError>(BracketError::UnmatchedClose)
            <==> has_unmatched_close(program@),
        r == Err::<HashMap<usize, usize>, BracketError>(BracketError::UnmatchedOpen) <==> (
        !has_unmatched_close(program@) && depth(program@, program@.len() as int) != 0),
        r matches Ok(m) ==> resolves(program@, m@),
{
    let ghost p = program@;
    let mut stack: Vec<usize> = Vec::new();
    let mut map: HashMap<usize, usize> = HashMap::new();
    let mut k: usize = 0;
    while k < program.len()
        invariant
            p == program@,
            k <= p.len(),
            stack@.len() == depth(p, k as int),
            forall|m: int| 0 <= m <= k ==> #[trigger] depth(p, m) >= 0,
            forall|d: int|
                0 <= d < stack@.len() ==> {
                    let i = #[trigger] stack@[d] as int;
                    &&& 0 <= i < k
                    &&& is_open(p[i])
                    &&& depth(p, i) == d
                    &&& forall|m: int| i < m <= k ==> #[trigger] depth(p, m) > d
                },
            forall|d: int| 0 <= d < stack@.len() ==> !map@.contains_key(#[trigger] stack@[d]),
            forall|i: usize| #[trigger]
                map@.contains_key(i) ==> i < k && is_bracket(p[i as int]) && (matching(
                    p,
                    i as int,
                    map@[i] as int,
                ) || matching(p, map@[i] as int, i as int)),
            forall|i: usize|
                i < k && is_bracket(p[i as int]) ==> #[trigger] map@.contains_key(i) || exists|
                    d: int,
                | 0 <= d < stack@.len() && stack@[d] == i,
        decreases p.len() - k,
    {
        match program[k] {
            IRInstruction::JumpIfZero => {
                let ghost before = stack@;
                stack.push(k);
                assert forall|i: usize|
                    i < k + 1 && is_bracket(p[i as int]) implies #[trigger] map@.contains_key(i)
                    || exists|d: int| 0 <= d < stack@.len() && stack@[d] == i by {
                    if i == k {
                        assert(stack@[stack@.len() - 1] == i);
                    } else if !map@.contains_key(i) {
                        let d = choose|d: int| 0 <= d < before.len() && before[d] == i;
                        assert(stack@[d] == i);
                    }
                }
            },
            IRInstruction::JumpIfNotZero => {
                if stack.len() == 0 {
                    assert(depth(p, k + 1) < 0);
                    return Err(BracketError::UnmatchedClose);
                }
                let ghost before = stack@;
                let target = stack.pop().unwrap();
                let ghost d = stack@.len() as int;
                assert(matching(p, target as int, k as int));
                map.insert(k, target);
                map.insert(target, k);
                assert forall|i: usize|
                    i < k + 1 && is_bracket(p[i as int]) implies #[trigger] map@.contains_key(i)
                    || exists|e: int| 0 <= e < stack@.len() && stack@[e] == i by {
                    if i != k && i != target && !map@.contains_key(i) {
                        let e = choose|e: int| 0 <= e <= d && before[e] == i;
                        assert(e != d);
                        assert(stack@[e] == i);
                    }
                }
            },
            _ => {},
        }
        k += 1;
    }
    if stack.len() > 0 {
        return Err(BracketError::UnmatchedOpen);
    }
    Ok(map)
}

} // verus!
