//! The peephole rewrites preserve what a loop does: from the loop's first
//! instruction, the loop and its replacement reach the same tape, cursor and
//! output at the instruction behind the loop. So the pass preserves what a
//! program does: a run that halts still halts, with the same tape, cursor and
//! output.

use vstd::prelude::*;
use vstd::arithmetic::div_mod::{lemma_add_mod_noop_right, lemma_mul_mod_noop_left};
use crate::opcode::{
    lemma_adjacent_jumps_are_partners,
    linked_at,
    nested,
    no_zero_delta,
    well_linked,
    OpCode,
};
use crate::optimizer::{
    clear_at,
    move_after_decrement_at,
    move_before_decrement_at,
    lemma_rewrite_keeps_links,
    multiplier_of,
    optimize_from,
    optimize_spec,
    rewrite_at,
};
use crate::compiler::{compile_spec, CompileError};
use crate::filter::{lemma_minify_shorter, minify_spec};
use crate::lower::{lemma_lowered_is_well_formed, lower_spec};
use crate::vm::{initial_state, on_tape, run_spec, step_spec, wrap_add, State, Status};

verus! {

/// The state after exactly `n` instructions from `s`, or `None` where the run
/// ends or leaves the tape before that.
pub open spec fn steps(code: Seq<OpCode>, s: State, n: nat) -> Option<State>
    decreases n,
{
    if n == 0 {
        Some(s)
    } else if s.index < 0 || s.index >= code.len() {
        None
    } else {
        match step_spec(code, s) {
            None => None,
            Some(next) => steps(code, next, (n - 1) as nat),
        }
    }
}

/// Two states that differ at most in the number of instructions executed.
pub open spec fn same_effect(a: State, b: State) -> bool {
    &&& a.tape =~= b.tape
    &&& a.pointer == b.pointer
    &&& a.index == b.index
    &&& a.output == b.output
}

/// Whether `a` is `s` with the given tape and index, `n` instructions later.
pub open spec fn reached(a: Option<State>, s: State, tape: Seq<u8>, index: int, n: int) -> bool {
    &&& a matches Some(t)
    &&& t.tape =~= tape
    &&& t.index == index
    &&& t.pointer == s.pointer
    &&& t.output == s.output
    &&& t.ops == s.ops + n
}

/// Running `a + b` instructions is running `a` and then `b`.
pub proof fn lemma_steps_split(code: Seq<OpCode>, s: State, a: nat, b: nat)
    ensures
        steps(code, s, a + b) == match steps(code, s, a) {
            Some(mid) => steps(code, mid, b),
            None => None,
        },
    decreases a,
{
    if a > 0 && 0 <= s.index < code.len() {
        match step_spec(code, s) {
            None => {},
            Some(next) => {
                lemma_steps_split(code, next, (a - 1) as nat, b);
                assert((a + b - 1) as nat == (a - 1) as nat + b);
            },
        }
    }
}

/// Adding to a cell in two parts is adding the sum.
pub proof fn lemma_wrap_add_twice(x: u8, a: int, b: int)
    ensures
        wrap_add(wrap_add(x, a), b) == wrap_add(x, a + b),
{
    lemma_add_mod_noop_right(b, x as int + a, 256);
    assert(b + (x as int + a) % 256 == (x as int + a) % 256 + b);
    assert(b + (x as int + a) == x as int + (a + b));
}

/// The number of instructions that the clear loop executes on a cell.
pub open spec fn clear_length(cell: u8) -> nat {
    if cell == 0 {
        2
    } else {
        (3 * cell) as nat
    }
}

/// The clear loop at slot `i` with its two jumps storing each other's index.
pub open spec fn clear_loop_at(code: Seq<OpCode>, i: int) -> bool {
    &&& clear_at(code, i)
    &&& code[i]->JumpForward_0 == i + 2
    &&& code[i + 2]->JumpBackward_0 == i
}

proof fn lemma_clear_loop(code: Seq<OpCode>, i: int, s: State)
    requires
        clear_loop_at(code, i),
        s.index == i,
        on_tape(s),
        s.tape[s.pointer] != 0,
    ensures
        reached(
            steps(code, s, (3 * s.tape[s.pointer]) as nat),
            s,
            s.tape.update(s.pointer, 0u8),
            i + 3,
            3 * s.tape[s.pointer],
        ),
    decreases s.tape[s.pointer],
{
    let c = s.tape[s.pointer];
    reveal_with_fuel(steps, 4);
    let s1 = steps(code, s, 3)->0;
    assert(s1.tape =~= s.tape.update(s.pointer, (c - 1) as u8));
    if c > 1 {
        assert(s1.index == i);
        lemma_clear_loop(code, i, s1);
        lemma_steps_split(code, s, 3, (3 * (c - 1)) as nat);
        assert(3 + (3 * (c - 1)) as nat == (3 * c) as nat);
    }
}

/// The clear rewrite is sound. In a sequence of linked, nested jumps, from
/// the first slot of a loop that the clear idiom matches, the loop and the
/// three instructions that replace it end behind the loop with the current
/// cell zero and everything else as it was.
pub proof fn lemma_clear_rewrite_sound(code: Seq<OpCode>, i: int, s: State)
    requires
        well_linked(code),
        nested(code),
        clear_at(code, i),
        s.index == i,
        on_tape(s),
    ensures
        reached(
            steps(code, s, clear_length(s.tape[s.pointer])),
            s,
            s.tape.update(s.pointer, 0u8),
            i + 3,
            clear_length(s.tape[s.pointer]) as int,
        ),
        reached(steps(rewrite_at(code, i), s, 3), s, s.tape.update(s.pointer, 0u8), i + 3, 3),
        same_effect(
            steps(code, s, clear_length(s.tape[s.pointer]))->0,
            steps(rewrite_at(code, i), s, 3)->0,
        ),
{
    lemma_clear_found_is_loop(code, i);
    reveal_with_fuel(steps, 4);
    if s.tape[s.pointer] != 0 {
        lemma_clear_loop(code, i, s);
    }
}

/// One of the two move loops at slot `i`, with its two jumps storing each
/// other's index and a cursor movement that is not zero.
pub open spec fn move_loop_at(code: Seq<OpCode>, i: int) -> bool {
    &&& move_after_decrement_at(code, i) || move_before_decrement_at(code, i)
    &&& code[i]->JumpForward_0 == i + 5
    &&& code[i + 5]->JumpBackward_0 == i
    &&& move_offset(code, i) != 0
}

/// The distance from the source cell to the destination cell of a move loop.
pub open spec fn move_offset(code: Seq<OpCode>, i: int) -> int {
    if move_after_decrement_at(code, i) {
        code[i + 2]->AlterPointer_0 as int
    } else {
        code[i + 1]->AlterPointer_0 as int
    }
}

/// What one round of a move loop adds to the destination cell.
pub open spec fn move_delta(code: Seq<OpCode>, i: int) -> int {
    if move_after_decrement_at(code, i) {
        1
    } else {
        code[i + 2]->AlterValue_0 as int
    }
}

/// The number of instructions that a move loop executes on a source cell.
pub open spec fn move_length(cell: u8) -> nat {
    if cell == 0 {
        2
    } else {
        (6 * cell) as nat
    }
}

/// The tape after a move loop: the destination has gained the source times
/// the loop's delta, modulo 256, and the source is zero. With a source of
/// zero the loop is not entered and the tape is as it was.
pub open spec fn moved_tape(code: Seq<OpCode>, i: int, s: State) -> Seq<u8> {
    let to = s.pointer + move_offset(code, i);
    if s.tape[s.pointer] == 0 {
        s.tape
    } else {
        s.tape.update(to, wrap_add(s.tape[to], s.tape[s.pointer] * move_delta(code, i))).update(
            s.pointer,
            0u8,
        )
    }
}

/// Where a move loop can run from state `s`: at its first slot, with source
/// and destination on the tape.
pub open spec fn move_ready(code: Seq<OpCode>, i: int, s: State) -> bool {
    &&& move_loop_at(code, i)
    &&& move_fits(code, i, s)
}

/// The state is at slot `i` with the cursor on the tape, and the destination
/// of the move idiom found there is on the tape too unless the source is
/// zero, in which case the destination is never reached.
pub open spec fn move_fits(code: Seq<OpCode>, i: int, s: State) -> bool {
    &&& s.index == i
    &&& on_tape(s)
    &&& s.tape[s.pointer] != 0 ==> 0 <= s.pointer + move_offset(code, i) < s.tape.len()
}

proof fn lemma_move_round(code: Seq<OpCode>, i: int, s: State)
    requires
        move_ready(code, i, s),
        s.tape[s.pointer] != 0,
    ensures
        reached(
            steps(code, s, 6),
            s,
            s.tape.update(
                s.pointer + move_offset(code, i),
                wrap_add(s.tape[s.pointer + move_offset(code, i)], move_delta(code, i)),
            ).update(s.pointer, (s.tape[s.pointer] - 1) as u8),
            if s.tape[s.pointer] == 1 {
                i + 6
            } else {
                i
            },
            6,
        ),
{
    reveal_with_fuel(steps, 7);
    let s1 = step_spec(code, s)->0;
    let s2 = step_spec(code, s1)->0;
    let s3 = step_spec(code, s2)->0;
    let s4 = step_spec(code, s3)->0;
    let s5 = step_spec(code, s4)->0;
    let s6 = step_spec(code, s5)->0;
    assert(s1.index == i + 1);
    assert(s2.index == i + 2);
    assert(s3.index == i + 3);
    assert(s4.index == i + 4);
    assert(s5.index == i + 5 && s5.pointer == s.pointer);
    assert(s5.tape[s.pointer] == (s.tape[s.pointer] - 1) as u8);
    assert(steps(code, s, 6) == Some(s6));
}

proof fn lemma_move_loop(code: Seq<OpCode>, i: int, s: State)
    requires
        move_ready(code, i, s),
        s.tape[s.pointer] != 0,
    ensures
        reached(
            steps(code, s, (6 * s.tape[s.pointer]) as nat),
            s,
            moved_tape(code, i, s),
            i + 6,
            6 * s.tape[s.pointer],
        ),
    decreases s.tape[s.pointer],
{
    let c = s.tape[s.pointer];
    let k = move_delta(code, i);
    let to = s.pointer + move_offset(code, i);
    lemma_move_round(code, i, s);
    let s1 = steps(code, s, 6)->0;
    if c > 1 {
        lemma_move_loop(code, i, s1);
        lemma_steps_split(code, s, 6, (6 * (c - 1)) as nat);
        assert(6 + (6 * (c - 1)) as nat == (6 * c) as nat);
        lemma_wrap_add_twice(s.tape[to], k, (c - 1) * k);
        assert(k + (c - 1) * k == c * k) by (nonlinear_arith);
        assert(s1.tape[s1.pointer] == c - 1);
        assert(moved_tape(code, i, s1) =~= moved_tape(code, i, s));
    } else {
        assert(c * k == k) by (nonlinear_arith)
            requires
                c == 1,
        ;
    }
}

/// The move rewrites are sound. In a sequence of linked, nested jumps without
/// a zero delta, from the first slot of a loop that a move idiom matches, the
/// loop and the six instructions that replace it end behind the loop with the
/// same tape, cursor and output. The destination has gained the source times
/// the loop's delta, modulo 256, and the source is zero. The destination has
/// to be on the tape only where the source is not zero: a loop that is not
/// entered reaches no other cell, and neither does its replacement.
pub proof fn lemma_move_rewrite_sound(code: Seq<OpCode>, i: int, s: State)
    requires
        well_linked(code),
        nested(code),
        no_zero_delta(code),
        move_after_decrement_at(code, i) || move_before_decrement_at(code, i),
        move_fits(code, i, s),
    ensures
        reached(
            steps(code, s, move_length(s.tape[s.pointer])),
            s,
            moved_tape(code, i, s),
            i + 6,
            move_length(s.tape[s.pointer]) as int,
        ),
        reached(steps(rewrite_at(code, i), s, 6), s, moved_tape(code, i, s), i + 6, 6),
        same_effect(
            steps(code, s, move_length(s.tape[s.pointer]))->0,
            steps(rewrite_at(code, i), s, 6)->0,
        ),
{
    let c = s.tape[s.pointer];
    let k = move_delta(code, i);
    let to = s.pointer + move_offset(code, i);
    let x = s.tape[to];
    let fast = rewrite_at(code, i);
    lemma_move_found_is_loop(code, i);
    if c != 0 {
        lemma_move_loop(code, i, s);
    } else {
        reveal_with_fuel(steps, 3);
        assert(c * k == 0) by (nonlinear_arith)
            requires
                c == 0,
        ;
        assert(moved_tape(code, i, s) =~= s.tape);
    }
    let factor: u8 = if move_after_decrement_at(code, i) {
        1u8
    } else {
        multiplier_of(code[i + 2]->AlterValue_0)
    };
    assert(fast[i] == OpCode::AddMul(move_offset(code, i) as i16, factor));
    assert(fast[i + 1] == OpCode::SetZero);
    assert(fast[i + 2] == OpCode::Nop && fast[i + 3] == OpCode::Nop && fast[i + 4] == OpCode::Nop
        && fast[i + 5] == OpCode::Nop);
    assert(wrap_add(x, factor * c) == wrap_add(x, c * k)) by {
        if move_after_decrement_at(code, i) {
            assert(factor * c == c * k) by (nonlinear_arith)
                requires
                    factor == 1,
                    k == 1,
            ;
        } else {
            lemma_mul_mod_noop_left(k, c as int, 256);
            lemma_add_mod_noop_right(x as int, k * c, 256);
            lemma_add_mod_noop_right(x as int, (k % 256) * c, 256);
            assert(factor as int == k % 256);
            assert(k * c == c * k) by (nonlinear_arith);
        }
    }
    let f1 = step_spec(fast, s)->0;
    let f2 = step_spec(fast, f1)->0;
    assert(f2.tape =~= moved_tape(code, i, s));
    reveal_with_fuel(steps, 7);
    let f3 = step_spec(fast, f2)->0;
    let f4 = step_spec(fast, f3)->0;
    let f5 = step_spec(fast, f4)->0;
    let f6 = step_spec(fast, f5)->0;
    assert(f6.index == i + 6);
    assert(steps(fast, s, 6) == Some(f6));
}

/// In a sequence of linked, nested jumps, wherever the clear idiom is found
/// its two jumps are partners.
pub proof fn lemma_clear_found_is_loop(code: Seq<OpCode>, i: int)
    requires
        well_linked(code),
        nested(code),
        clear_at(code, i),
    ensures
        clear_loop_at(code, i),
{
    lemma_adjacent_jumps_are_partners(code, i, i + 2);
}

/// In a sequence of linked, nested jumps without a zero delta, wherever a
/// move idiom is found its two jumps are partners and its cursor movement is
/// not zero.
pub proof fn lemma_move_found_is_loop(code: Seq<OpCode>, i: int)
    requires
        well_linked(code),
        nested(code),
        no_zero_delta(code),
        move_after_decrement_at(code, i) || move_before_decrement_at(code, i),
    ensures
        move_loop_at(code, i),
{
    lemma_adjacent_jumps_are_partners(code, i, i + 5);
    assert(code[i + 1] != OpCode::AlterPointer(0) && code[i + 2] != OpCode::AlterPointer(0));
}


/// A run that can take `k` instructions goes on from the state that they
/// reach.
proof fn lemma_run_after_steps(code: Seq<OpCode>, s: State, k: nat, n: nat)
    requires
        steps(code, s, k) is Some,
        k <= n,
    ensures
        run_spec(code, s, n) == run_spec(code, steps(code, s, k)->0, (n - k) as nat),
    decreases k,
{
    if k > 0 {
        let next = step_spec(code, s)->0;
        lemma_run_after_steps(code, next, (k - 1) as nat, (n - 1) as nat);
    }
}

/// A run with less budget than the instructions it can take does not halt.
proof fn lemma_run_cut_short(code: Seq<OpCode>, s: State, k: nat, n: nat)
    requires
        steps(code, s, k) is Some,
        n < k,
    ensures
        run_spec(code, s, n).1 == Status::OutOfSteps,
    decreases k,
{
    if n > 0 {
        let next = step_spec(code, s)->0;
        lemma_run_cut_short(code, next, (k - 1) as nat, (n - 1) as nat);
    }
}

/// The number of slots behind slot `i` that the rewrite tried there replaces.
pub open spec fn span(code: Seq<OpCode>, i: int) -> int {
    if clear_at(code, i) {
        2
    } else if move_after_decrement_at(code, i) || move_before_decrement_at(code, i) {
        5
    } else {
        0
    }
}

proof fn lemma_move_off_tape_never_halts(code: Seq<OpCode>, i: int, s: State, n: nat)
    requires
        move_loop_at(code, i),
        s.index == i,
        on_tape(s),
        s.tape[s.pointer] != 0,
        !(0 <= s.pointer + move_offset(code, i) < s.tape.len()),
    ensures
        run_spec(code, s, n).1 != Status::Halted,
{
    reveal_with_fuel(run_spec, 4);
    let s1 = step_spec(code, s)->0;
    assert(s1.index == i + 1);
    if move_after_decrement_at(code, i) {
        let s2 = step_spec(code, s1)->0;
        assert(s2.index == i + 2 && s2.pointer == s.pointer);
        assert(step_spec(code, s2) is None);
    } else {
        assert(step_spec(code, s1) is None);
    }
}

proof fn lemma_rewrite_no_zero(code: Seq<OpCode>, i: int)
    requires
        no_zero_delta(code),
    ensures
        no_zero_delta(rewrite_at(code, i)),
{
    let next = rewrite_at(code, i);
    assert forall|k: int| 0 <= k < next.len() implies #[trigger] next[k] != OpCode::AlterValue(0)
        && next[k] != OpCode::AlterPointer(0) by {
        assert(code[k] != OpCode::AlterValue(0) && code[k] != OpCode::AlterPointer(0));
    }
}

/// One rewrite keeps every halting run: from a state outside the rewritten
/// slots, where the sequence halts within `n` instructions, the rewritten
/// sequence halts within the number returned, with the same tape, cursor and
/// output.
proof fn lemma_rewrite_run(code: Seq<OpCode>, i: int, s: State, s2: State, n: nat) -> (m: nat)
    requires
        well_linked(code),
        nested(code),
        no_zero_delta(code),
        same_effect(s, s2),
        on_tape(s),
        !(i < s.index <= i + span(code, i)),
        run_spec(code, s, n).1 == Status::Halted,
    ensures
        run_spec(rewrite_at(code, i), s2, m).1 == Status::Halted,
        same_effect(run_spec(code, s, n).0, run_spec(rewrite_at(code, i), s2, m).0),
    decreases n,
{
    let fast = rewrite_at(code, i);
    assert(s.tape == s2.tape);
    if s.index < 0 || s.index >= code.len() {
        0
    } else if span(code, i) > 0 && s.index == i {
        if clear_at(code, i) {
            let len = clear_length(s.tape[s.pointer]);
            lemma_clear_rewrite_sound(code, i, s);
            lemma_clear_rewrite_sound(code, i, s2);
            if n < len {
                lemma_run_cut_short(code, s, len, n);
            }
            lemma_run_after_steps(code, s, len, n);
            let a1 = steps(code, s, len)->0;
            let b1 = steps(fast, s2, 3)->0;
            let m1 = lemma_rewrite_run(code, i, a1, b1, (n - len) as nat);
            lemma_run_after_steps(fast, s2, 3, m1 + 3);
            m1 + 3
        } else {
            lemma_move_found_is_loop(code, i);
            if s.tape[s.pointer] != 0 && !(0 <= s.pointer + move_offset(code, i) < s.tape.len()) {
                lemma_move_off_tape_never_halts(code, i, s, n);
            }
            let len = move_length(s.tape[s.pointer]);
            lemma_move_rewrite_sound(code, i, s);
            lemma_move_rewrite_sound(code, i, s2);
            if n < len {
                lemma_run_cut_short(code, s, len, n);
            }
            lemma_run_after_steps(code, s, len, n);
            let a1 = steps(code, s, len)->0;
            let b1 = steps(fast, s2, 6)->0;
            let m1 = lemma_rewrite_run(code, i, a1, b1, (n - len) as nat);
            lemma_run_after_steps(fast, s2, 6, m1 + 6);
            m1 + 6
        }
    } else {
        let at = s.index;
        assert(fast[at] == code[at]);
        assert(linked_at(code, at));
        if clear_at(code, i) {
            lemma_clear_found_is_loop(code, i);
        } else if span(code, i) > 0 {
            lemma_move_found_is_loop(code, i);
        }
        let t = step_spec(code, s)->0;
        let t2 = step_spec(fast, s2)->0;
        assert(step_spec(fast, s2) is Some);
        assert(same_effect(t, t2));
        if code[at].is_jump() && t.index != at + 1 {
            let to = code[at].target();
            assert(t.index == to);
            assert(code[to].is_jump());
            assert(linked_at(code, to));
        }
        let m1 = lemma_rewrite_run(code, i, t, t2, (n - 1) as nat);
        m1 + 1
    }
}

proof fn lemma_pass_run(code: Seq<OpCode>, i: int, s: State, n: nat) -> (m: nat)
    requires
        well_linked(code),
        nested(code),
        no_zero_delta(code),
        on_tape(s),
        s.index == 0,
        run_spec(code, s, n).1 == Status::Halted,
    ensures
        run_spec(optimize_from(code, i), s, m).1 == Status::Halted,
        same_effect(run_spec(code, s, n).0, run_spec(optimize_from(code, i), s, m).0),
    decreases code.len() - i,
{
    if 0 <= i < code.len() {
        let m1 = lemma_rewrite_run(code, i, s, s, n);
        lemma_rewrite_keeps_links(code, i);
        lemma_rewrite_no_zero(code, i);
        lemma_pass_run(rewrite_at(code, i), i + 1, s, m1)
    } else {
        n
    }
}

/// One rewrite adds no halting run: from a state outside the rewritten
/// slots, where the rewritten sequence halts within `m` instructions, the
/// sequence itself halts within the number returned, with the same tape,
/// cursor and output.
proof fn lemma_rewrite_run_back(code: Seq<OpCode>, i: int, s: State, s2: State, m: nat) -> (n: nat)
    requires
        well_linked(code),
        nested(code),
        no_zero_delta(code),
        same_effect(s, s2),
        on_tape(s),
        !(i < s.index <= i + span(code, i)),
        run_spec(rewrite_at(code, i), s2, m).1 == Status::Halted,
    ensures
        run_spec(code, s, n).1 == Status::Halted,
        same_effect(run_spec(code, s, n).0, run_spec(rewrite_at(code, i), s2, m).0),
    decreases m,
{
    let fast = rewrite_at(code, i);
    assert(s.tape == s2.tape);
    if s.index < 0 || s.index >= code.len() {
        0
    } else if span(code, i) > 0 && s.index == i {
        if clear_at(code, i) {
            let len = clear_length(s.tape[s.pointer]);
            lemma_clear_rewrite_sound(code, i, s);
            lemma_clear_rewrite_sound(code, i, s2);
            if m < 3 {
                lemma_run_cut_short(fast, s2, 3, m);
            }
            lemma_run_after_steps(fast, s2, 3, m);
            let a1 = steps(code, s, len)->0;
            let b1 = steps(fast, s2, 3)->0;
            let n1 = lemma_rewrite_run_back(code, i, a1, b1, (m - 3) as nat);
            lemma_run_after_steps(code, s, len, n1 + len);
            n1 + len
        } else {
            lemma_move_found_is_loop(code, i);
            if s.tape[s.pointer] != 0 && !(0 <= s.pointer + move_offset(code, i) < s.tape.len()) {
                assert(fast[i] is AddMul);
                assert(fast[i]->AddMul_0 == move_offset(code, i));
                assert(step_spec(fast, s2) is None);
                reveal_with_fuel(run_spec, 2);
            }
            let len = move_length(s.tape[s.pointer]);
            lemma_move_rewrite_sound(code, i, s);
            lemma_move_rewrite_sound(code, i, s2);
            if m < 6 {
                lemma_run_cut_short(fast, s2, 6, m);
            }
            lemma_run_after_steps(fast, s2, 6, m);
            let a1 = steps(code, s, len)->0;
            let b1 = steps(fast, s2, 6)->0;
            let n1 = lemma_rewrite_run_back(code, i, a1, b1, (m - 6) as nat);
            lemma_run_after_steps(code, s, len, n1 + len);
            n1 + len
        }
    } else {
        let at = s.index;
        assert(fast[at] == code[at]);
        assert(linked_at(code, at));
        if clear_at(code, i) {
            lemma_clear_found_is_loop(code, i);
        } else if span(code, i) > 0 {
            lemma_move_found_is_loop(code, i);
        }
        let t = step_spec(code, s)->0;
        let t2 = step_spec(fast, s2)->0;
        assert(step_spec(code, s) is Some);
        assert(same_effect(t, t2));
        if code[at].is_jump() && t.index != at + 1 {
            let to = code[at].target();
            assert(t.index == to);
            assert(code[to].is_jump());
            assert(linked_at(code, to));
        }
        let n1 = lemma_rewrite_run_back(code, i, t, t2, (m - 1) as nat);
        n1 + 1
    }
}

proof fn lemma_pass_run_back(code: Seq<OpCode>, i: int, s: State, m: nat) -> (n: nat)
    requires
        well_linked(code),
        nested(code),
        no_zero_delta(code),
        on_tape(s),
        s.index == 0,
        run_spec(optimize_from(code, i), s, m).1 == Status::Halted,
    ensures
        run_spec(code, s, n).1 == Status::Halted,
        same_effect(run_spec(code, s, n).0, run_spec(optimize_from(code, i), s, m).0),
    decreases code.len() - i,
{
    if 0 <= i < code.len() {
        lemma_rewrite_keeps_links(code, i);
        lemma_rewrite_no_zero(code, i);
        let n1 = lemma_pass_run_back(rewrite_at(code, i), i + 1, s, m);
        lemma_rewrite_run_back(code, i, s, s, n1)
    } else {
        m
    }
}

/// The peephole pass adds no halting run. Where the rewritten form of a
/// sequence of linked, nested jumps without a zero delta, run from its first
/// instruction with the cursor on the tape, halts, the sequence itself halts
/// too, with the same tape, the same cursor and the same output. So the two
/// halt on the same tapes.
pub proof fn lemma_plain_run_agrees(code: Seq<OpCode>, s: State, m: nat)
    requires
        well_linked(code),
        nested(code),
        no_zero_delta(code),
        on_tape(s),
        s.index == 0,
        run_spec(optimize_spec(code), s, m).1 == Status::Halted,
    ensures
        exists|n: nat|
            (#[trigger] run_spec(code, s, n)).1 == Status::Halted && same_effect(
                run_spec(code, s, n).0,
                run_spec(optimize_spec(code), s, m).0,
            ),
{
    let n = lemma_pass_run_back(code, 0, s, m);
    assert(run_spec(code, s, n).1 == Status::Halted);
}

proof fn lemma_move_off_tape_faults(code: Seq<OpCode>, i: int, s: State)
    requires
        move_loop_at(code, i),
        s.index == i,
        on_tape(s),
        s.tape[s.pointer] != 0,
        !(0 <= s.pointer + move_offset(code, i) < s.tape.len()),
    ensures
        run_spec(code, s, 3).1 == Status::OutOfTape,
{
    reveal_with_fuel(run_spec, 4);
    let s1 = step_spec(code, s)->0;
    assert(s1.index == i + 1);
    if move_after_decrement_at(code, i) {
        let s2 = step_spec(code, s1)->0;
        assert(s2.index == i + 2 && s2.pointer == s.pointer);
        assert(step_spec(code, s2) is None);
    } else {
        assert(step_spec(code, s1) is None);
    }
}

/// One rewrite adds no run that leaves the tape.
proof fn lemma_rewrite_fault_back(code: Seq<OpCode>, i: int, s: State, s2: State, m: nat) -> (n:
    nat)
    requires
        well_linked(code),
        nested(code),
        no_zero_delta(code),
        same_effect(s, s2),
        on_tape(s),
        !(i < s.index <= i + span(code, i)),
        run_spec(rewrite_at(code, i), s2, m).1 == Status::OutOfTape,
    ensures
        run_spec(code, s, n).1 == Status::OutOfTape,
    decreases m,
{
    let fast = rewrite_at(code, i);
    assert(s.tape == s2.tape);
    if span(code, i) > 0 && s.index == i {
        if clear_at(code, i) {
            let len = clear_length(s.tape[s.pointer]);
            lemma_clear_rewrite_sound(code, i, s);
            lemma_clear_rewrite_sound(code, i, s2);
            if m < 3 {
                lemma_run_cut_short(fast, s2, 3, m);
            }
            lemma_run_after_steps(fast, s2, 3, m);
            let a1 = steps(code, s, len)->0;
            let b1 = steps(fast, s2, 3)->0;
            let n1 = lemma_rewrite_fault_back(code, i, a1, b1, (m - 3) as nat);
            lemma_run_after_steps(code, s, len, n1 + len);
            n1 + len
        } else {
            lemma_move_found_is_loop(code, i);
            if s.tape[s.pointer] != 0 && !(0 <= s.pointer + move_offset(code, i) < s.tape.len()) {
                lemma_move_off_tape_faults(code, i, s);
                3
            } else {
                let len = move_length(s.tape[s.pointer]);
                lemma_move_rewrite_sound(code, i, s);
                lemma_move_rewrite_sound(code, i, s2);
                if m < 6 {
                    lemma_run_cut_short(fast, s2, 6, m);
                }
                lemma_run_after_steps(fast, s2, 6, m);
                let a1 = steps(code, s, len)->0;
                let b1 = steps(fast, s2, 6)->0;
                let n1 = lemma_rewrite_fault_back(code, i, a1, b1, (m - 6) as nat);
                lemma_run_after_steps(code, s, len, n1 + len);
                n1 + len
            }
        }
    } else {
        let at = s.index;
        assert(0 <= at < code.len());
        assert(fast[at] == code[at]);
        assert(linked_at(code, at));
        if clear_at(code, i) {
            lemma_clear_found_is_loop(code, i);
        } else if span(code, i) > 0 {
            lemma_move_found_is_loop(code, i);
        }
        if step_spec(fast, s2) is None {
            assert(step_spec(code, s) is None);
            1
        } else {
            let t = step_spec(code, s)->0;
            let t2 = step_spec(fast, s2)->0;
            assert(step_spec(code, s) is Some);
            assert(same_effect(t, t2));
            if code[at].is_jump() && t.index != at + 1 {
                let to = code[at].target();
                assert(t.index == to);
                assert(code[to].is_jump());
                assert(linked_at(code, to));
            }
            let n1 = lemma_rewrite_fault_back(code, i, t, t2, (m - 1) as nat);
            n1 + 1
        }
    }
}

proof fn lemma_pass_fault_back(code: Seq<OpCode>, i: int, s: State, m: nat) -> (n: nat)
    requires
        well_linked(code),
        nested(code),
        no_zero_delta(code),
        on_tape(s),
        s.index == 0,
        run_spec(optimize_from(code, i), s, m).1 == Status::OutOfTape,
    ensures
        run_spec(code, s, n).1 == Status::OutOfTape,
    decreases code.len() - i,
{
    if 0 <= i < code.len() {
        lemma_rewrite_keeps_links(code, i);
        lemma_rewrite_no_zero(code, i);
        let n1 = lemma_pass_fault_back(rewrite_at(code, i), i + 1, s, m);
        lemma_rewrite_fault_back(code, i, s, s, n1)
    } else {
        m
    }
}

/// The peephole pass adds no run that leaves the tape. Where the rewritten
/// form of a sequence of linked, nested jumps without a zero delta, run from
/// its first instruction with the cursor on the tape, leaves the tape, the
/// sequence itself leaves the tape too. So where the sequence stays on the
/// tape whatever its budget, so does its rewritten form.
pub proof fn lemma_rewritten_run_stays_on_tape(code: Seq<OpCode>, s: State, m: nat)
    requires
        well_linked(code),
        nested(code),
        no_zero_delta(code),
        on_tape(s),
        s.index == 0,
        run_spec(optimize_spec(code), s, m).1 == Status::OutOfTape,
    ensures
        exists|n: nat| (#[trigger] run_spec(code, s, n)).1 == Status::OutOfTape,
{
    let n = lemma_pass_fault_back(code, 0, s, m);
    assert(run_spec(code, s, n).1 == Status::OutOfTape);
}

/// The peephole pass keeps every halting run. Where a sequence of linked,
/// nested jumps without a zero delta, run from its first instruction with the
/// cursor on the tape, halts, the rewritten sequence halts too, with the same
/// tape, the same cursor and the same output.
pub proof fn lemma_optimized_run_agrees(code: Seq<OpCode>, s: State, n: nat)
    requires
        well_linked(code),
        nested(code),
        no_zero_delta(code),
        on_tape(s),
        s.index == 0,
        run_spec(code, s, n).1 == Status::Halted,
    ensures
        exists|m: nat|
            (#[trigger] run_spec(optimize_spec(code), s, m)).1 == Status::Halted && same_effect(
                run_spec(code, s, n).0,
                run_spec(optimize_spec(code), s, m).0,
            ),
{
    let m = lemma_pass_run(code, 0, s, n);
    assert(run_spec(optimize_spec(code), s, m).1 == Status::Halted);
}


/// Compiling with the peephole pass keeps every halting run. Where what a
/// text lowers to, run on a fresh tape, halts, what the text compiles to halts
/// too on that tape, with the same tape, the same cursor and the same output.
pub proof fn lemma_compiled_run_agrees(source: Seq<char>, size: nat, n: nat)
    requires
        source.len() <= usize::MAX,
        size > 0,
        lower_spec(minify_spec(source)) matches Ok(plain) && run_spec(
            plain,
            initial_state(size),
            n,
        ).1 == Status::Halted,
    ensures
        compile_spec(source) is Ok,
        exists|m: nat|
            (#[trigger] run_spec(compile_spec(source)->Ok_0, initial_state(size), m)).1
                == Status::Halted && same_effect(
                run_spec(lower_spec(minify_spec(source))->Ok_0, initial_state(size), n).0,
                run_spec(compile_spec(source)->Ok_0, initial_state(size), m).0,
            ),
{
    let plain = lower_spec(minify_spec(source))->Ok_0;
    lemma_minify_shorter(source);
    lemma_lowered_is_well_formed(minify_spec(source));
    assert(compile_spec(source) == Ok::<Seq<OpCode>, CompileError>(optimize_spec(plain)));
    let m = lemma_pass_run(plain, 0, initial_state(size), n);
    assert(run_spec(compile_spec(source)->Ok_0, initial_state(size), m).1 == Status::Halted);
}

} // verus!
