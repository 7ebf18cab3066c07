//! The instruction set that the compiler produces and both backends consume,
//! and what makes a sequence of instructions well formed.

use vstd::prelude::*;

verus! {

/// One instruction of the intermediate representation.
#[derive(Debug, Clone, Copy, PartialEq, Eq, Structural)]
pub enum OpCode {
    /// Adds the signed delta to the current cell, modulo 256.
    AlterValue(i16),
    /// Adds the signed delta to the tape cursor.
    AlterPointer(i16),
    /// Continues at the given index when the current cell is zero.
    JumpForward(usize),
    /// Continues at the given index when the current cell is not zero.
    JumpBackward(usize),
    /// Adds the current cell times the multiplier to the cell at the given
    /// offset from the cursor, modulo 256.
    AddMul(i16, u8),
    /// Sets the current cell to zero.
    SetZero,
    /// Does nothing; it keeps the slot of a rewritten instruction so that the
    /// indices stored in jumps stay valid.
    Nop,
    /// Emits the current cell as one character.
    PutChar,
}

impl OpCode {
    /// Whether this instruction is a jump of either direction.
    pub open spec fn is_jump(self) -> bool {
        self is JumpForward || self is JumpBackward
    }

    /// The index a jump stores; zero for every other instruction.
    pub open spec fn target(self) -> int {
        match self {
            OpCode::JumpForward(t) => t as int,
            OpCode::JumpBackward(t) => t as int,
            _ => 0,
        }
    }
}

/// Whether the jump at `i`, if there is one, and its partner store each
/// other's index.
pub open spec fn linked_at(code: Seq<OpCode>, i: int) -> bool {
    match code[i] {
        OpCode::JumpForward(j) => i < j < code.len() && code[j as int] is JumpBackward
            && code[j as int].target() == i,
        OpCode::JumpBackward(j) => j < i && code[j as int] is JumpForward && code[j as int].target()
            == i,
        _ => true,
    }
}

/// Every jump and its partner store each other's index.
pub open spec fn well_linked(code: Seq<OpCode>) -> bool {
    forall|i: int| 0 <= i < code.len() ==> #[trigger] linked_at(code, i)
}

/// No arithmetic instruction has a delta of zero.
pub open spec fn no_zero_delta(code: Seq<OpCode>) -> bool {
    forall|i: int|
        0 <= i < code.len() ==> #[trigger] code[i] != OpCode::AlterValue(0) && code[i]
            != OpCode::AlterPointer(0)
}

/// Every jump stores an index inside the sequence.
pub open spec fn jumps_in_range(code: Seq<OpCode>) -> bool {
    forall|i: int|
        0 <= i < code.len() && (#[trigger] code[i]).is_jump() ==> 0 <= code[i].target()
            < code.len()
}

/// Loops nest: a jump that stands inside a closed loop has its partner inside
/// that loop too.
pub open spec fn nested(code: Seq<OpCode>) -> bool {
    forall|a: int, k: int|
        0 <= a < k < code.len() && (#[trigger] code[a]) is JumpForward && k < code[a].target() && (
        #[trigger] code[k]).is_jump() ==> a < code[k].target() < code[a].target()
}

/// In a linked and nested sequence, a loop-open and a loop-close with no jump
/// between them are partners.
pub proof fn lemma_adjacent_jumps_are_partners(code: Seq<OpCode>, i: int, j: int)
    requires
        well_linked(code),
        nested(code),
        0 <= i < j < code.len(),
        code[i] is JumpForward,
        code[j] is JumpBackward,
        forall|k: int| i < k < j ==> !(#[trigger] code[k]).is_jump(),
    ensures
        code[i].target() == j,
        code[j].target() == i,
{
    assert(linked_at(code, j));
    assert(linked_at(code, i));
    let p = code[j].target();
    let q = code[i].target();
    if p != i {
        assert(code[p].is_jump());
        assert(p < i);
        assert(code[i].is_jump());
        assert(p < q < j);
        assert(code[q].is_jump());
    }
}

/// Linked jumps store indices inside the sequence.
pub proof fn lemma_linked_in_range(code: Seq<OpCode>)
    requires
        well_linked(code),
    ensures
        jumps_in_range(code),
{
    assert forall|k: int| 0 <= k < code.len() && (#[trigger] code[k]).is_jump() implies 0
        <= code[k].target() < code.len() by {
        assert(linked_at(code, k));
    }
}

} // verus!
