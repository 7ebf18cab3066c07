//! The second stage of compilation: a single scan that collapses runs of
//! arithmetic symbols and links each loop-close with its loop-open.

use vstd::prelude::*;
use crate::compiler::CompileError;
use crate::filter::{is_pointer_symbol, is_value_symbol};
use crate::opcode::{linked_at, nested, no_zero_delta, well_linked, OpCode};

verus! {

/// Whether two symbols are arithmetic symbols of the same family: both change
/// the cell, or both move the cursor.
pub open spec fn same_family(a: char, b: char) -> bool {
    (is_value_symbol(a) && is_value_symbol(b)) || (is_pointer_symbol(a) && is_pointer_symbol(b))
}

/// What one arithmetic symbol adds to its run's delta.
pub open spec fn symbol_delta(c: char) -> int {
    if c == '+' || c == '>' {
        1
    } else {
        -1
    }
}

/// The first position at or after `at` whose symbol is not of the family of
/// `c`, or the length of the stream if there is none.
pub open spec fn run_end(t: Seq<char>, c: char, at: int) -> int
    decreases t.len() - at,
{
    if 0 <= at < t.len() && same_family(c, t[at]) {
        run_end(t, c, at + 1)
    } else {
        at
    }
}

/// The sum of the deltas of the symbols at positions `from..to`.
pub open spec fn run_delta(t: Seq<char>, from: int, to: int) -> int
    decreases to - from,
{
    if to <= from {
        0
    } else {
        run_delta(t, from, to - 1) + symbol_delta(t[to - 1])
    }
}

/// How often `c` occurs among the first `n` symbols of `t`.
pub open spec fn count_in(t: Seq<char>, c: char, n: int) -> nat
    decreases n,
{
    if n <= 0 {
        0
    } else if t[n - 1] == c {
        count_in(t, c, n - 1) + 1
    } else {
        count_in(t, c, n - 1)
    }
}

/// How often `c` occurs in `t`.
pub open spec fn count(t: Seq<char>, c: char) -> nat {
    count_in(t, c, t.len() as int)
}

pub proof fn lemma_run_end_bounds(t: Seq<char>, c: char, at: int)
    requires
        0 <= at <= t.len(),
    ensures
        at <= run_end(t, c, at) <= t.len(),
    decreases t.len() - at,
{
    if at < t.len() && same_family(c, t[at]) {
        lemma_run_end_bounds(t, c, at + 1);
    }
}

/// The instruction that a run of the family of `c` with net delta `d` becomes.
pub open spec fn run_op(c: char, d: int) -> OpCode {
    if is_value_symbol(c) {
        OpCode::AlterValue(d as i16)
    } else {
        OpCode::AlterPointer(d as i16)
    }
}

/// The scan from position `pos` on, with the instructions emitted so far and
/// the slots of the loops that are still open, innermost last.
pub open spec fn lower_from(t: Seq<char>, pos: int, code: Seq<OpCode>, pending: Seq<usize>) -> Result<
    Seq<OpCode>,
    CompileError,
>
    decreases t.len() - pos,
    via lower_from_decreases
{
    if pos < 0 || pos >= t.len() {
        if pending.len() == 0 {
            Ok(code)
        } else {
            Err(CompileError::UnmatchedOpen(pending.last()))
        }
    } else {
        let c = t[pos];
        if is_value_symbol(c) || is_pointer_symbol(c) {
            let end = run_end(t, c, pos + 1);
            let d = run_delta(t, pos, end);
            if d == 0 {
                lower_from(t, end, code, pending)
            } else if d < -32768 || d > 32767 {
                Err(CompileError::DeltaOutOfRange(pos as usize))
            } else {
                lower_from(t, end, code.push(run_op(c, d)), pending)
            }
        } else if c == '.' {
            lower_from(t, pos + 1, code.push(OpCode::PutChar), pending)
        } else if c == '[' {
            lower_from(
                t,
                pos + 1,
                code.push(OpCode::JumpForward(0)),
                pending.push(code.len() as usize),
            )
        } else if c == ']' {
            if pending.len() == 0 {
                Err(CompileError::UnmatchedClose(pos as usize))
            } else {
                let start = pending.last();
                lower_from(
                    t,
                    pos + 1,
                    code.update(start as int, OpCode::JumpForward(code.len() as usize)).push(
                        OpCode::JumpBackward(start),
                    ),
                    pending.drop_last(),
                )
            }
        } else {
            lower_from(t, pos + 1, code, pending)
        }
    }
}

#[via_fn]
proof fn lower_from_decreases(t: Seq<char>, pos: int, code: Seq<OpCode>, pending: Seq<usize>) {
    if 0 <= pos < t.len() {
        lemma_run_end_bounds(t, t[pos], pos + 1);
    }
}

/// The instructions that a stream of symbols lowers to, or why it is rejected.
/// Runs of one arithmetic family collapse into one instruction, or into none
/// where their net delta is zero; each loop-close is linked with the innermost
/// open loop. The input symbol has no instruction and lowers to nothing.
pub open spec fn lower_spec(t: Seq<char>) -> Result<Seq<OpCode>, CompileError> {
    lower_from(t, 0, Seq::empty(), Seq::empty())
}

/// Whether slot `i` is that of a loop still open.
pub open spec fn is_pending(pending: Seq<usize>, i: int) -> bool {
    exists|k: int| 0 <= k < pending.len() && #[trigger] pending[k] == i
}

/// The state of a scan is consistent: the open loops are placeholders in
/// ascending slots, and every other jump is linked with its partner.
pub open spec fn scan_wf(code: Seq<OpCode>, pending: Seq<usize>) -> bool {
    &&& forall|k: int|
        0 <= k < pending.len() ==> (#[trigger] pending[k]) < code.len() && code[pending[k] as int]
            == OpCode::JumpForward(0)
    &&& forall|k: int, l: int| 0 <= k < l < pending.len() ==> pending[k] < pending[l]
    &&& forall|i: int|
        0 <= i < code.len() ==> is_pending(pending, i) || #[trigger] linked_at(code, i)
}

proof fn lemma_scan_push_plain(code: Seq<OpCode>, pending: Seq<usize>, op: OpCode)
    requires
        scan_wf(code, pending),
        !op.is_jump(),
    ensures
        scan_wf(code.push(op), pending),
{
    let next = code.push(op);
    assert forall|i: int| 0 <= i < next.len() implies is_pending(pending, i) || #[trigger] linked_at(
        next,
        i,
    ) by {
        if i < code.len() {
            assert(is_pending(pending, i) || linked_at(code, i));
        }
    }
}

proof fn lemma_scan_open(code: Seq<OpCode>, pending: Seq<usize>)
    requires
        scan_wf(code, pending),
        code.len() <= usize::MAX,
    ensures
        scan_wf(code.push(OpCode::JumpForward(0)), pending.push(code.len() as usize)),
{
    let next = code.push(OpCode::JumpForward(0));
    let open = pending.push(code.len() as usize);
    assert forall|i: int| 0 <= i < next.len() implies is_pending(open, i) || #[trigger] linked_at(
        next,
        i,
    ) by {
        if i < code.len() {
            assert(is_pending(pending, i) || linked_at(code, i));
            if is_pending(pending, i) {
                let k = choose|k: int| 0 <= k < pending.len() && #[trigger] pending[k] == i;
                assert(open[k] == i);
            }
        } else {
            assert(open[pending.len() as int] == i);
        }
    }
}

proof fn lemma_scan_close(code: Seq<OpCode>, pending: Seq<usize>)
    requires
        scan_wf(code, pending),
        pending.len() > 0,
        code.len() <= usize::MAX,
    ensures
        scan_wf(
            code.update(pending.last() as int, OpCode::JumpForward(code.len() as usize)).push(
                OpCode::JumpBackward(pending.last()),
            ),
            pending.drop_last(),
        ),
{
    let start = pending.last();
    let n = code.len();
    let next = code.update(start as int, OpCode::JumpForward(n as usize)).push(
        OpCode::JumpBackward(start),
    );
    let open = pending.drop_last();
    assert(pending[pending.len() - 1] == start);
    assert forall|k: int| 0 <= k < open.len() implies (#[trigger] open[k]) < next.len() && next[open[k] as int]
        == OpCode::JumpForward(0) by {
        assert(open[k] == pending[k]);
        assert(pending[k] < pending[pending.len() - 1]);
    }
    assert forall|i: int| 0 <= i < next.len() implies is_pending(open, i) || #[trigger] linked_at(
        next,
        i,
    ) by {
        if i == n || i == start {
        } else {
            assert(is_pending(pending, i) || linked_at(code, i));
            if is_pending(pending, i) {
                let k = choose|k: int| 0 <= k < pending.len() && #[trigger] pending[k] == i;
                assert(open[k] == i);
            } else {
                match code[i] {
                    OpCode::JumpForward(j) => {
                        assert(j != start);
                    },
                    OpCode::JumpBackward(j) => {
                        assert(j != start);
                    },
                    _ => {},
                }
            }
        }
    }
}

proof fn lemma_nested_push_plain(code: Seq<OpCode>, pending: Seq<usize>, op: OpCode)
    requires
        scan_wf(code, pending),
        nested(code),
        !op.is_jump(),
    ensures
        nested(code.push(op)),
{
    let next = code.push(op);
    assert forall|a: int, k: int|
        0 <= a < k < next.len() && (#[trigger] next[a]) is JumpForward && k < next[a].target() && (
        #[trigger] next[k]).is_jump() implies a < next[k].target() < next[a].target() by {
        assert(code[a] is JumpForward && code[k].is_jump());
    }
}

proof fn lemma_nested_open(code: Seq<OpCode>, pending: Seq<usize>)
    requires
        scan_wf(code, pending),
        nested(code),
    ensures
        nested(code.push(OpCode::JumpForward(0))),
{
    let next = code.push(OpCode::JumpForward(0));
    assert forall|a: int, k: int|
        0 <= a < k < next.len() && (#[trigger] next[a]) is JumpForward && k < next[a].target() && (
        #[trigger] next[k]).is_jump() implies a < next[k].target() < next[a].target() by {
        assert(is_pending(pending, a) || linked_at(code, a));
        assert(code[a] is JumpForward);
        if k < code.len() {
            assert(code[k].is_jump());
        }
    }
}

proof fn lemma_nested_close(code: Seq<OpCode>, pending: Seq<usize>)
    requires
        scan_wf(code, pending),
        nested(code),
        pending.len() > 0,
        code.len() <= usize::MAX,
    ensures
        nested(
            code.update(pending.last() as int, OpCode::JumpForward(code.len() as usize)).push(
                OpCode::JumpBackward(pending.last()),
            ),
        ),
{
    let start = pending.last() as int;
    let n = code.len() as int;
    let next = code.update(start, OpCode::JumpForward(n as usize)).push(
        OpCode::JumpBackward(start as usize),
    );
    assert(pending[pending.len() - 1] == start);
    assert(code[start] == OpCode::JumpForward(0));
    assert forall|a: int, k: int|
        0 <= a < k < next.len() && (#[trigger] next[a]) is JumpForward && k < next[a].target() && (
        #[trigger] next[k]).is_jump() implies a < next[k].target() < next[a].target() by {
        if a == start {
            assert(k < n);
            assert(code[k].is_jump());
            assert(is_pending(pending, k) || linked_at(code, k));
            if is_pending(pending, k) {
                let w = choose|w: int| 0 <= w < pending.len() && #[trigger] pending[w] == k;
                if w < pending.len() - 1 {
                    assert(pending[w] < pending[pending.len() - 1]);
                }
            } else {
                match code[k] {
                    OpCode::JumpBackward(j) => {
                        if j <= start {
                            assert(code[j as int] is JumpForward);
                            assert(code[start].is_jump());
                        }
                    },
                    _ => {},
                }
            }
        } else {
            assert(is_pending(pending, a) || linked_at(code, a));
            assert(code[a] is JumpForward);
            assert(next[a] == code[a]);
            assert(k < n);
            if k == start {
                assert(code[start].is_jump());
            } else {
                assert(code[k].is_jump());
            }
        }
    }
}

/// Whether two symbols are arithmetic symbols of the same family.
pub fn in_family(a: char, b: char) -> (r: bool)
    ensures
        r == same_family(a, b),
{
    ((a == '+' || a == '-') && (b == '+' || b == '-')) || ((a == '>' || a == '<') && (b == '>' || b
        == '<'))
}

/// Lowers a stream of symbols to instructions with resolved loop targets.
///
/// Fails where a loop-close symbol has no open loop, a loop is left open at
/// the end, or a run does not fit a 16-bit delta, and reports the first of
/// these in reading order. On success the brackets balance, every jump and
/// its partner store each other's index, loops nest, and no delta is zero.
pub fn lower(tokens: &Vec<char>) -> (r: Result<Vec<OpCode>, CompileError>)
    ensures
        match r {
            Ok(code) => lower_spec(tokens@) == Ok::<Seq<OpCode>, CompileError>(code@),
            Err(e) => lower_spec(tokens@) == Err::<Seq<OpCode>, CompileError>(e),
        },
        r is Ok ==> count(tokens@, '[') == count(tokens@, ']'),
        count(tokens@, '[') != count(tokens@, ']') ==> r is Err,
        r matches Ok(code) ==> well_linked(code@) && nested(code@) && no_zero_delta(code@)
            && code@.len() <= tokens@.len(),
{
    let n: usize = tokens.len();
    let mut code: Vec<OpCode> = Vec::new();
    let mut pending: Vec<usize> = Vec::new();
    let mut pos: usize = 0;
    while pos < n
        invariant
            n == tokens@.len(),
            pos <= n,
            code@.len() <= pos,
            lower_spec(tokens@) == lower_from(tokens@, pos as int, code@, pending@),
            forall|k: int| 0 <= k < pending@.len() ==> pending@[k] < code@.len(),
        decreases n - pos,
    {
        let c: char = tokens[pos];
        let start: usize = pos;
        if c == '+' || c == '-' || c == '>' || c == '<' {
            let mut delta: i128 = if c == '+' || c == '>' {
                1
            } else {
                -1
            };
            pos += 1;
            assert(run_delta(tokens@, start as int, start as int) == 0);
            while pos < n && in_family(c, tokens[pos])
                invariant
                    n == tokens@.len(),
                    start < pos <= n,
                    same_family(c, c),
                    run_end(tokens@, c, pos as int) == run_end(tokens@, c, start + 1),
                    delta == run_delta(tokens@, start as int, pos as int),
                    -(pos - start) <= delta <= pos - start,
                decreases n - pos,
            {
                let d: char = tokens[pos];
                if d == '+' || d == '>' {
                    delta += 1;
                } else {
                    delta -= 1;
                }
                pos += 1;
            }
            assert(run_end(tokens@, c, pos as int) == pos);
            if delta != 0 {
                if delta < -32768 || delta > 32767 {
                    return Err(CompileError::DeltaOutOfRange(start));
                }
                let op = if c == '+' || c == '-' {
                    OpCode::AlterValue(delta as i16)
                } else {
                    OpCode::AlterPointer(delta as i16)
                };
                code.push(op);
            }
        } else if c == '.' {
            code.push(OpCode::PutChar);
            pos += 1;
        } else if c == '[' {
            pending.push(code.len());
            code.push(OpCode::JumpForward(0));
            pos += 1;
        } else if c == ']' {
            if pending.len() == 0 {
                return Err(CompileError::UnmatchedClose(pos));
            }
            proof {
                assert(pending@.drop_last() =~= pending@.subrange(0, pending@.len() - 1));
            }
            let from: usize = pending[pending.len() - 1];
            pending.pop();
            let here: usize = code.len();
            code.set(from, OpCode::JumpForward(here));
            code.push(OpCode::JumpBackward(from));
            pos += 1;
        } else {
            pos += 1;
        }
    }
    if pending.len() != 0 {
        return Err(CompileError::UnmatchedOpen(pending[pending.len() - 1]));
    }
    proof {
        lemma_lowered_is_balanced(tokens@);
        lemma_lowered_is_well_formed(tokens@);
    }
    Ok(code)
}

/// A run of arithmetic symbols holds no occurrence of a symbol that is not
/// arithmetic.
pub proof fn lemma_run_skips(t: Seq<char>, c: char, at: int, other: char)
    requires
        0 <= at <= t.len(),
        !is_value_symbol(other) && !is_pointer_symbol(other),
    ensures
        count_in(t, other, run_end(t, c, at)) == count_in(t, other, at),
    decreases t.len() - at,
{
    if at < t.len() && same_family(c, t[at]) {
        lemma_run_skips(t, c, at + 1, other);
    }
}

proof fn lemma_lower_from_balanced(t: Seq<char>, pos: int, code: Seq<OpCode>, pending: Seq<usize>)
    requires
        0 <= pos <= t.len(),
        lower_from(t, pos, code, pending) is Ok,
    ensures
        count(t, '[') - count_in(t, '[', pos) + pending.len() == count(t, ']') - count_in(
            t,
            ']',
            pos,
        ),
    decreases t.len() - pos,
{
    if pos < t.len() {
        let c = t[pos];
        if is_value_symbol(c) || is_pointer_symbol(c) {
            let end = run_end(t, c, pos + 1);
            let d = run_delta(t, pos, end);
            lemma_run_end_bounds(t, c, pos + 1);
            lemma_run_skips(t, c, pos + 1, '[');
            lemma_run_skips(t, c, pos + 1, ']');
            if d == 0 {
                lemma_lower_from_balanced(t, end, code, pending);
            } else {
                lemma_lower_from_balanced(t, end, code.push(run_op(c, d)), pending);
            }
        } else if c == '.' {
            lemma_lower_from_balanced(t, pos + 1, code.push(OpCode::PutChar), pending);
        } else if c == '[' {
            lemma_lower_from_balanced(
                t,
                pos + 1,
                code.push(OpCode::JumpForward(0)),
                pending.push(code.len() as usize),
            );
        } else if c == ']' {
            let start = pending.last();
            lemma_lower_from_balanced(
                t,
                pos + 1,
                code.update(start as int, OpCode::JumpForward(code.len() as usize)).push(
                    OpCode::JumpBackward(start),
                ),
                pending.drop_last(),
            );
        } else {
            lemma_lower_from_balanced(t, pos + 1, code, pending);
        }
    }
}

proof fn lemma_lower_from_wf(t: Seq<char>, pos: int, code: Seq<OpCode>, pending: Seq<usize>)
    requires
        0 <= pos <= t.len() <= usize::MAX,
        code.len() <= pos,
        scan_wf(code, pending),
        nested(code),
        no_zero_delta(code),
    ensures
        lower_from(t, pos, code, pending) matches Ok(done) ==> well_linked(done) && nested(done)
            && no_zero_delta(done) && done.len() <= t.len(),
    decreases t.len() - pos,
{
    if pos < t.len() {
        let c = t[pos];
        if is_value_symbol(c) || is_pointer_symbol(c) {
            let end = run_end(t, c, pos + 1);
            let d = run_delta(t, pos, end);
            lemma_run_end_bounds(t, c, pos + 1);
            if d == 0 {
                lemma_lower_from_wf(t, end, code, pending);
            } else if -32768 <= d <= 32767 {
                lemma_scan_push_plain(code, pending, run_op(c, d));
                lemma_nested_push_plain(code, pending, run_op(c, d));
                lemma_lower_from_wf(t, end, code.push(run_op(c, d)), pending);
            }
        } else if c == '.' {
            lemma_scan_push_plain(code, pending, OpCode::PutChar);
            lemma_nested_push_plain(code, pending, OpCode::PutChar);
            lemma_lower_from_wf(t, pos + 1, code.push(OpCode::PutChar), pending);
        } else if c == '[' {
            lemma_scan_open(code, pending);
            lemma_nested_open(code, pending);
            lemma_lower_from_wf(
                t,
                pos + 1,
                code.push(OpCode::JumpForward(0)),
                pending.push(code.len() as usize),
            );
        } else if c == ']' {
            if pending.len() > 0 {
                let start = pending.last();
                lemma_scan_close(code, pending);
                lemma_nested_close(code, pending);
                lemma_lower_from_wf(
                    t,
                    pos + 1,
                    code.update(start as int, OpCode::JumpForward(code.len() as usize)).push(
                        OpCode::JumpBackward(start),
                    ),
                    pending.drop_last(),
                );
            }
        } else {
            lemma_lower_from_wf(t, pos + 1, code, pending);
        }
    } else if pending.len() == 0 {
        assert forall|i: int| 0 <= i < code.len() implies #[trigger] linked_at(code, i) by {
            assert(is_pending(pending, i) || linked_at(code, i));
        }
    }
}

/// A stream that lowers has as many loop-open as loop-close symbols; a stream
/// in which the two numbers differ is rejected.
pub proof fn lemma_lowered_is_balanced(t: Seq<char>)
    ensures
        lower_spec(t) is Ok ==> count(t, '[') == count(t, ']'),
        count(t, '[') != count(t, ']') ==> lower_spec(t) is Err,
{
    if lower_spec(t) is Ok {
        lemma_lower_from_balanced(t, 0, Seq::empty(), Seq::empty());
    }
}

/// What a stream lowers to is well formed: every jump is linked with its
/// partner, loops nest, no arithmetic instruction has a delta of zero, and
/// there are no more instructions than symbols.
pub proof fn lemma_lowered_is_well_formed(t: Seq<char>)
    requires
        t.len() <= usize::MAX,
    ensures
        lower_spec(t) matches Ok(code) ==> well_linked(code) && nested(code) && no_zero_delta(code)
            && code.len() <= t.len(),
{
    lemma_lower_from_wf(t, 0, Seq::empty(), Seq::empty());
}

/// No prefix of the first `n` symbols holds more loop-close than loop-open
/// symbols.
pub open spec fn prefixes_open(t: Seq<char>, n: int) -> bool {
    forall|q: int| 0 <= q <= n ==> count_in(t, ']', q) <= #[trigger] count_in(t, '[', q)
}

/// The loop symbols of a stream nest: no prefix holds more loop-close than
/// loop-open symbols, and the whole stream holds as many of the one as of the
/// other.
pub open spec fn brackets_nest(t: Seq<char>) -> bool {
    prefixes_open(t, t.len() as int) && count(t, '[') == count(t, ']')
}

proof fn lemma_count_grows(t: Seq<char>, c: char, a: int, b: int)
    requires
        a <= b,
    ensures
        count_in(t, c, a) <= count_in(t, c, b),
    decreases b - a,
{
    if a < b {
        lemma_count_grows(t, c, a, b - 1);
    }
}

proof fn lemma_run_keeps_prefixes(t: Seq<char>, c: char, pos: int)
    requires
        0 <= pos < t.len(),
        is_value_symbol(c) || is_pointer_symbol(c),
        t[pos] == c,
        prefixes_open(t, pos),
    ensures
        prefixes_open(t, run_end(t, c, pos + 1)),
        count_in(t, '[', run_end(t, c, pos + 1)) == count_in(t, '[', pos),
        count_in(t, ']', run_end(t, c, pos + 1)) == count_in(t, ']', pos),
{
    let end = run_end(t, c, pos + 1);
    lemma_run_end_bounds(t, c, pos + 1);
    lemma_run_skips(t, c, pos + 1, '[');
    lemma_run_skips(t, c, pos + 1, ']');
    assert forall|q: int| 0 <= q <= end implies count_in(t, ']', q) <= #[trigger] count_in(
        t,
        '[',
        q,
    ) by {
        if q > pos {
            lemma_count_grows(t, '[', pos, q);
            lemma_count_grows(t, '[', q, end);
            lemma_count_grows(t, ']', pos, q);
            lemma_count_grows(t, ']', q, end);
        }
    }
}

proof fn lemma_prefix_step(t: Seq<char>, pos: int)
    requires
        0 <= pos < t.len(),
        prefixes_open(t, pos),
        t[pos] != ']' || count_in(t, ']', pos) < count_in(t, '[', pos),
    ensures
        prefixes_open(t, pos + 1),
{
    assert forall|q: int| 0 <= q <= pos + 1 implies count_in(t, ']', q) <= #[trigger] count_in(
        t,
        '[',
        q,
    ) by {
        if q == pos + 1 {
            assert(count_in(t, ']', pos) <= count_in(t, '[', pos));
        }
    }
}

proof fn lemma_lower_from_sides(t: Seq<char>, pos: int, code: Seq<OpCode>, pending: Seq<usize>)
    requires
        0 <= pos <= t.len() <= usize::MAX,
        pending.len() == count_in(t, '[', pos) - count_in(t, ']', pos),
        prefixes_open(t, pos),
    ensures
        match lower_from(t, pos, code, pending) {
            Ok(_) => brackets_nest(t),
            Err(CompileError::UnmatchedClose(p)) => p < t.len() && prefixes_open(t, p as int)
                && count_in(t, ']', p + 1) > count_in(t, '[', p + 1),
            Err(CompileError::UnmatchedOpen(_)) => prefixes_open(t, t.len() as int) && count(
                t,
                '[',
            ) > count(t, ']'),
            Err(CompileError::DeltaOutOfRange(_)) => true,
        },
    decreases t.len() - pos,
{
    if pos < t.len() {
        let c = t[pos];
        if is_value_symbol(c) || is_pointer_symbol(c) {
            let end = run_end(t, c, pos + 1);
            let d = run_delta(t, pos, end);
            lemma_run_end_bounds(t, c, pos + 1);
            lemma_run_keeps_prefixes(t, c, pos);
            if d == 0 {
                lemma_lower_from_sides(t, end, code, pending);
            } else if -32768 <= d <= 32767 {
                lemma_lower_from_sides(t, end, code.push(run_op(c, d)), pending);
            }
        } else if c == '.' {
            lemma_prefix_step(t, pos);
            lemma_lower_from_sides(t, pos + 1, code.push(OpCode::PutChar), pending);
        } else if c == '[' {
            lemma_prefix_step(t, pos);
            lemma_lower_from_sides(
                t,
                pos + 1,
                code.push(OpCode::JumpForward(0)),
                pending.push(code.len() as usize),
            );
        } else if c == ']' {
            if pending.len() > 0 {
                let start = pending.last();
                lemma_prefix_step(t, pos);
                lemma_lower_from_sides(
                    t,
                    pos + 1,
                    code.update(start as int, OpCode::JumpForward(code.len() as usize)).push(
                        OpCode::JumpBackward(start),
                    ),
                    pending.drop_last(),
                );
            }
        } else {
            lemma_prefix_step(t, pos);
            lemma_lower_from_sides(t, pos + 1, code, pending);
        }
    }
}

/// Which streams lower, and which side is reported. A stream that lowers has
/// nesting loop symbols. An unmatched loop-close is reported at the first
/// position where a prefix holds more loop-close than loop-open symbols. An
/// unmatched loop-open is reported where no prefix does but the stream holds
/// more loop-open symbols. So a stream whose loop symbols nest lowers unless
/// one of its runs does not fit a 16-bit delta.
pub proof fn lemma_lowering_reports_the_side(t: Seq<char>)
    requires
        t.len() <= usize::MAX,
    ensures
        lower_spec(t) is Ok ==> brackets_nest(t),
        brackets_nest(t) ==> lower_spec(t) is Ok || lower_spec(t) matches Err(
            CompileError::DeltaOutOfRange(_),
        ),
        lower_spec(t) matches Err(CompileError::UnmatchedClose(p)) ==> p < t.len()
            && prefixes_open(t, p as int) && count_in(t, ']', p + 1) > count_in(t, '[', p + 1),
        lower_spec(t) matches Err(CompileError::UnmatchedOpen(_)) ==> prefixes_open(
            t,
            t.len() as int,
        ) && count(t, '[') > count(t, ']'),
{
    lemma_lower_from_sides(t, 0, Seq::empty(), Seq::empty());
    if brackets_nest(t) {
        match lower_spec(t) {
            Err(CompileError::UnmatchedClose(p)) => {
                assert(count_in(t, ']', p + 1) <= count_in(t, '[', p + 1));
            },
            _ => {},
        }
    }
}

/// The number of instructions that the symbols from `pos` on lower to: one
/// for each run of arithmetic symbols whose net delta is not zero, and one
/// for each output, loop-open and loop-close symbol.
pub open spec fn slots_from(t: Seq<char>, pos: int) -> nat
    decreases t.len() - pos,
    via slots_from_decreases
{
    if pos < 0 || pos >= t.len() {
        0
    } else if is_value_symbol(t[pos]) || is_pointer_symbol(t[pos]) {
        let end = run_end(t, t[pos], pos + 1);
        if run_delta(t, pos, end) == 0 {
            slots_from(t, end)
        } else {
            slots_from(t, end) + 1
        }
    } else if t[pos] == '.' || t[pos] == '[' || t[pos] == ']' {
        slots_from(t, pos + 1) + 1
    } else {
        slots_from(t, pos + 1)
    }
}

#[via_fn]
proof fn slots_from_decreases(t: Seq<char>, pos: int) {
    if 0 <= pos < t.len() {
        lemma_run_end_bounds(t, t[pos], pos + 1);
    }
}

proof fn lemma_lower_from_length(t: Seq<char>, pos: int, code: Seq<OpCode>, pending: Seq<usize>)
    requires
        0 <= pos <= t.len() <= usize::MAX,
        code.len() <= pos,
        forall|k: int| 0 <= k < pending.len() ==> #[trigger] pending[k] < code.len(),
    ensures
        lower_from(t, pos, code, pending) matches Ok(done) ==> done.len() == code.len()
            + slots_from(t, pos),
    decreases t.len() - pos,
{
    if pos < t.len() {
        let c = t[pos];
        if is_value_symbol(c) || is_pointer_symbol(c) {
            let end = run_end(t, c, pos + 1);
            let d = run_delta(t, pos, end);
            lemma_run_end_bounds(t, c, pos + 1);
            if d == 0 {
                lemma_lower_from_length(t, end, code, pending);
            } else if -32768 <= d <= 32767 {
                lemma_lower_from_length(t, end, code.push(run_op(c, d)), pending);
            }
        } else if c == '.' {
            lemma_lower_from_length(t, pos + 1, code.push(OpCode::PutChar), pending);
        } else if c == '[' {
            lemma_lower_from_length(
                t,
                pos + 1,
                code.push(OpCode::JumpForward(0)),
                pending.push(code.len() as usize),
            );
        } else if c == ']' {
            if pending.len() > 0 {
                let start = pending.last();
                lemma_lower_from_length(
                    t,
                    pos + 1,
                    code.update(start as int, OpCode::JumpForward(code.len() as usize)).push(
                        OpCode::JumpBackward(start),
                    ),
                    pending.drop_last(),
                );
            }
        } else {
            lemma_lower_from_length(t, pos + 1, code, pending);
        }
    }
}

/// A stream lowers to one instruction for each run with a net delta that is
/// not zero and one for each output, loop-open and loop-close symbol.
pub proof fn lemma_lowered_length(t: Seq<char>)
    requires
        t.len() <= usize::MAX,
    ensures
        lower_spec(t) matches Ok(code) ==> code.len() == slots_from(t, 0),
{
    lemma_lower_from_length(t, 0, Seq::empty(), Seq::empty());
}

} // verus!
