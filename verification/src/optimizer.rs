//! The third stage of compilation: a single peephole pass that rewrites three
//! loop idioms in place and leaves every other slot as it is.

use vstd::prelude::*;
use crate::opcode::{
    jumps_in_range,
    lemma_adjacent_jumps_are_partners,
    linked_at,
    nested,
    no_zero_delta,
    well_linked,
    OpCode,
};

verus! {

/// The clear idiom at slot `i`: a loop whose body only decrements the cell.
pub open spec fn clear_at(code: Seq<OpCode>, i: int) -> bool {
    &&& 0 <= i && i + 2 < code.len()
    &&& code[i] is JumpForward
    &&& code[i + 1] == OpCode::AlterValue(-1i16)
    &&& code[i + 2] is JumpBackward
}

/// The move idiom at slot `i` that decrements first: decrement, move by `n`,
/// increment, move back by `n`.
pub open spec fn move_after_decrement_at(code: Seq<OpCode>, i: int) -> bool {
    &&& 0 <= i && i + 5 < code.len()
    &&& code[i] is JumpForward
    &&& code[i + 5] is JumpBackward
    &&& code[i + 1] == OpCode::AlterValue(-1i16)
    &&& code[i + 3] == OpCode::AlterValue(1)
    &&& code[i + 2] matches OpCode::AlterPointer(n)
    &&& code[i + 4] matches OpCode::AlterPointer(m)
    &&& m == -n
}

/// The move idiom at slot `i` that decrements last: move by `n`, add `k`, move
/// back by `n`, decrement.
pub open spec fn move_before_decrement_at(code: Seq<OpCode>, i: int) -> bool {
    &&& 0 <= i && i + 5 < code.len()
    &&& code[i] is JumpForward
    &&& code[i + 5] is JumpBackward
    &&& code[i + 1] matches OpCode::AlterPointer(n)
    &&& code[i + 3] matches OpCode::AlterPointer(m)
    &&& m == -n
    &&& code[i + 2] is AlterValue
    &&& code[i + 4] == OpCode::AlterValue(-1i16)
}

/// A signed delta as a multiplier modulo 256.
pub open spec fn multiplier_of(k: i16) -> u8 {
    (k as int % 256) as u8
}

/// Slots `from..to` overwritten with `Nop`.
pub open spec fn blank(code: Seq<OpCode>, from: int, to: int) -> Seq<OpCode> {
    Seq::new(
        code.len(),
        |k: int|
            if from <= k < to {
                OpCode::Nop
            } else {
                code[k]
            },
    )
}

/// The sequence after the rewrite tried at slot `i`: the first idiom that
/// matches there is replaced in place, slot by slot.
pub open spec fn rewrite_at(code: Seq<OpCode>, i: int) -> Seq<OpCode> {
    if clear_at(code, i) {
        blank(code, i + 1, i + 3).update(i, OpCode::SetZero)
    } else if move_after_decrement_at(code, i) {
        blank(code, i + 2, i + 6).update(i, OpCode::AddMul(code[i + 2]->AlterPointer_0, 1)).update(
            i + 1,
            OpCode::SetZero,
        )
    } else if move_before_decrement_at(code, i) {
        blank(code, i + 2, i + 6).update(
            i,
            OpCode::AddMul(
                code[i + 1]->AlterPointer_0,
                multiplier_of(code[i + 2]->AlterValue_0),
            ),
        ).update(i + 1, OpCode::SetZero)
    } else {
        code
    }
}

/// The sequence after the rewrites tried at slots `i`, `i + 1`, and so on to
/// the end, each on the result of the one before.
pub open spec fn optimize_from(code: Seq<OpCode>, i: int) -> Seq<OpCode>
    decreases code.len() - i,
{
    if i < 0 || i >= code.len() {
        code
    } else {
        optimize_from(rewrite_at(code, i), i + 1)
    }
}

/// The sequence after the single left-to-right peephole pass.
pub open spec fn optimize_spec(code: Seq<OpCode>) -> Seq<OpCode> {
    optimize_from(code, 0)
}

/// A pass keeps the length, and every slot is either left as it was or no
/// longer holds a jump.
pub open spec fn stable(before: Seq<OpCode>, after: Seq<OpCode>) -> bool {
    &&& after.len() == before.len()
    &&& forall|k: int|
        0 <= k < after.len() ==> #[trigger] after[k] == before[k] || !after[k].is_jump()
}

/// The peephole pass never inserts or removes a slot, and never writes a jump:
/// a jump found after the pass is the one that stood there before.
pub proof fn lemma_optimize_stable(code: Seq<OpCode>, i: int)
    ensures
        stable(code, optimize_from(code, i)),
    decreases code.len() - i,
{
    if 0 <= i < code.len() {
        let next = rewrite_at(code, i);
        lemma_optimize_stable(next, i + 1);
        let last = optimize_from(next, i + 1);
        assert forall|k: int| 0 <= k < last.len() implies #[trigger] last[k] == code[k]
            || !last[k].is_jump() by {
            assert(last[k] == next[k] || !last[k].is_jump());
        }
    }
}

/// After the peephole pass over a sequence whose jumps store indices inside
/// it, the length is the same and every jump left still stores an index inside
/// the sequence.
pub proof fn lemma_optimize_keeps_targets(code: Seq<OpCode>)
    requires
        jumps_in_range(code),
    ensures
        optimize_spec(code).len() == code.len(),
        jumps_in_range(optimize_spec(code)),
{
    lemma_optimize_stable(code, 0);
    let after = optimize_spec(code);
    assert forall|k: int| 0 <= k < after.len() && (#[trigger] after[k]).is_jump() implies 0
        <= after[k].target() < after.len() by {
        assert(after[k] == code[k]);
    }
}

/// Replacing a loop whose body holds no jump by instructions that are no
/// jumps leaves every other jump linked with its partner, and the loops
/// nested.
proof fn lemma_blank_loop(code: Seq<OpCode>, next: Seq<OpCode>, i: int, j: int)
    requires
        well_linked(code),
        nested(code),
        0 <= i < j < code.len(),
        code[i] is JumpForward,
        code[j] is JumpBackward,
        forall|k: int| i < k < j ==> !(#[trigger] code[k]).is_jump(),
        next.len() == code.len(),
        forall|k: int| i <= k <= j ==> !(#[trigger] next[k]).is_jump(),
        forall|k: int| 0 <= k < i || j < k < code.len() ==> #[trigger] next[k] == code[k],
    ensures
        well_linked(next),
        nested(next),
{
    lemma_adjacent_jumps_are_partners(code, i, j);
    assert forall|a: int| 0 <= a < next.len() implies #[trigger] linked_at(next, a) by {
        if a < i || a > j {
            assert(next[a] == code[a]);
            assert(linked_at(code, a));
            if code[a].is_jump() {
                let b = code[a].target();
                assert(code[b].is_jump());
                assert(linked_at(code, b));
                assert(next[b] == code[b]);
            }
        } else {
            assert(!next[a].is_jump());
        }
    }
    assert forall|a: int, k: int|
        0 <= a < k < next.len() && (#[trigger] next[a]) is JumpForward && k < next[a].target() && (
        #[trigger] next[k]).is_jump() implies a < next[k].target() < next[a].target() by {
        assert(next[a].is_jump());
        assert(next[a] == code[a]);
        assert(next[k] == code[k]);
    }
}

/// A rewrite leaves every jump that it does not replace linked with its
/// partner, and the loops nested.
pub proof fn lemma_rewrite_keeps_links(code: Seq<OpCode>, i: int)
    requires
        well_linked(code),
        nested(code),
    ensures
        well_linked(rewrite_at(code, i)),
        nested(rewrite_at(code, i)),
{
    let next = rewrite_at(code, i);
    if clear_at(code, i) {
        lemma_blank_loop(code, next, i, i + 2);
    } else if move_after_decrement_at(code, i) || move_before_decrement_at(code, i) {
        lemma_blank_loop(code, next, i, i + 5);
    }
}

/// After the peephole pass over a sequence of linked, nested jumps, every
/// jump that is left is still linked with its partner.
pub proof fn lemma_optimize_keeps_links(code: Seq<OpCode>, i: int)
    requires
        well_linked(code),
        nested(code),
    ensures
        well_linked(optimize_from(code, i)),
        nested(optimize_from(code, i)),
    decreases code.len() - i,
{
    if 0 <= i < code.len() {
        lemma_rewrite_keeps_links(code, i);
        lemma_optimize_keeps_links(rewrite_at(code, i), i + 1);
    }
}

fn is_jump_backward(op: &OpCode) -> (r: bool)
    ensures
        r == (*op is JumpBackward),
{
    match op {
        OpCode::JumpBackward(_) => true,
        _ => false,
    }
}

fn is_jump_forward(op: &OpCode) -> (r: bool)
    ensures
        r == (*op is JumpForward),
{
    match op {
        OpCode::JumpForward(_) => true,
        _ => false,
    }
}

/// The multiplier that a signed delta stands for, modulo 256.
pub fn multiplier(k: i16) -> (r: u8)
    ensures
        r == multiplier_of(k),
{
    let shifted: u32 = (k as i32 + 32768) as u32;
    assert((k as int + 32768) % 256 == k as int % 256) by {
        assert((k as int + 256 * 128) % 256 == k as int % 256) by (nonlinear_arith);
    }
    (shifted % 256) as u8
}

fn clear_here(code: &Vec<OpCode>, i: usize) -> (r: bool)
    requires
        i < code@.len(),
    ensures
        r == clear_at(code@, i as int),
{
    code.len() - i > 2 && is_jump_forward(&code[i]) && is_jump_backward(&code[i + 2]) && code[i
        + 1] == OpCode::AlterValue(-1)
}

fn opposite(a: &OpCode, b: &OpCode) -> (r: bool)
    ensures
        r == (*a matches OpCode::AlterPointer(n) && *b matches OpCode::AlterPointer(m) && m == -n),
{
    match (a, b) {
        (OpCode::AlterPointer(n), OpCode::AlterPointer(m)) => *m as i32 == -(*n as i32),
        _ => false,
    }
}

fn move_after_decrement_here(code: &Vec<OpCode>, i: usize) -> (r: bool)
    requires
        i < code@.len(),
    ensures
        r == move_after_decrement_at(code@, i as int),
{
    code.len() - i > 5 && is_jump_forward(&code[i]) && is_jump_backward(&code[i + 5]) && code[i
        + 1] == OpCode::AlterValue(-1) && code[i + 3] == OpCode::AlterValue(1) && opposite(
        &code[i + 2],
        &code[i + 4],
    )
}

fn alter_value_of(op: &OpCode) -> (r: Option<i16>)
    ensures
        match r {
            Some(k) => *op == OpCode::AlterValue(k),
            None => !(*op is AlterValue),
        },
{
    match op {
        OpCode::AlterValue(k) => Some(*k),
        _ => None,
    }
}

fn alter_pointer_of(op: &OpCode) -> (r: Option<i16>)
    ensures
        match r {
            Some(k) => *op == OpCode::AlterPointer(k),
            None => !(*op is AlterPointer),
        },
{
    match op {
        OpCode::AlterPointer(k) => Some(*k),
        _ => None,
    }
}

fn move_before_decrement_here(code: &Vec<OpCode>, i: usize) -> (r: bool)
    requires
        i < code@.len(),
    ensures
        r == move_before_decrement_at(code@, i as int),
{
    code.len() - i > 5 && is_jump_forward(&code[i]) && is_jump_backward(&code[i + 5]) && opposite(
        &code[i + 1],
        &code[i + 3],
    ) && alter_value_of(&code[i + 2]).is_some() && code[i + 4] == OpCode::AlterValue(-1)
}

/// Rewrites the loop idioms in place, in one pass from left to right. At each
/// loop-open slot the clear idiom is tried first, then the two move idioms;
/// the slots of a rewritten loop hold `SetZero`, `AddMul` and `Nop`, so the
/// length and the indices stored in the other jumps stay as they were.
pub fn optimize(code: Vec<OpCode>) -> (r: Vec<OpCode>)
    ensures
        r@ == optimize_spec(code@),
        r@.len() == code@.len(),
        stable(code@, r@),
        jumps_in_range(code@) ==> jumps_in_range(r@),
        well_linked(code@) && nested(code@) ==> well_linked(r@) && nested(r@),
        no_zero_delta(code@) ==> no_zero_delta(r@),
{
    let ghost before = code@;
    let mut code = code;
    let n: usize = code.len();
    let mut i: usize = 0;
    while i < n
        invariant
            n == code@.len(),
            n == before.len(),
            i <= n,
            optimize_spec(before) == optimize_from(code@, i as int),
        decreases n - i,
    {
        let ghost here = code@;
        if clear_here(&code, i) {
            code.set(i, OpCode::SetZero);
            code.set(i + 1, OpCode::Nop);
            code.set(i + 2, OpCode::Nop);
        } else if move_after_decrement_here(&code, i) {
            let offset = alter_pointer_of(&code[i + 2]).unwrap();
            code.set(i, OpCode::AddMul(offset, 1));
            code.set(i + 1, OpCode::SetZero);
            code.set(i + 2, OpCode::Nop);
            code.set(i + 3, OpCode::Nop);
            code.set(i + 4, OpCode::Nop);
            code.set(i + 5, OpCode::Nop);
        } else if move_before_decrement_here(&code, i) {
            let offset = alter_pointer_of(&code[i + 1]).unwrap();
            let k = alter_value_of(&code[i + 2]).unwrap();
            code.set(i, OpCode::AddMul(offset, multiplier(k)));
            code.set(i + 1, OpCode::SetZero);
            code.set(i + 2, OpCode::Nop);
            code.set(i + 3, OpCode::Nop);
            code.set(i + 4, OpCode::Nop);
            code.set(i + 5, OpCode::Nop);
        }
        assert(code@ =~= rewrite_at(here, i as int));
        i += 1;
    }
    proof {
        lemma_optimize_stable(before, 0);
        if jumps_in_range(before) {
            lemma_optimize_keeps_targets(before);
        }
        if well_linked(before) && nested(before) {
            lemma_optimize_keeps_links(before, 0);
        }
        if no_zero_delta(before) {
            lemma_optimize_no_zero(before, 0);
        }
    }
    code
}

/// The peephole pass writes no arithmetic instruction, so it introduces no
/// zero delta.
pub proof fn lemma_optimize_no_zero(code: Seq<OpCode>, i: int)
    requires
        no_zero_delta(code),
    ensures
        no_zero_delta(optimize_from(code, i)),
    decreases code.len() - i,
{
    if 0 <= i < code.len() {
        let next = rewrite_at(code, i);
        assert forall|k: int| 0 <= k < next.len() implies #[trigger] next[k] != OpCode::AlterValue(
            0,
        ) && next[k] != OpCode::AlterPointer(0) by {
            assert(code[k] != OpCode::AlterValue(0) && code[k] != OpCode::AlterPointer(0));
        }
        lemma_optimize_no_zero(next, i + 1);
    }
}

} // verus!
