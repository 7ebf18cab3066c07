//! Code generation: a program is lowered to the steps of an x86-64 routine,
//! which are then handed to the assembler one by one.

use vstd::prelude::*;
use iced_x86::code_asm::{CodeAssembler, CodeLabel};
use iced_x86::IcedError;
use crate::assembler;
use crate::assembler::{
    assembles,
    label_bound,
    label_number,
    labels_made,
    listing,
    machine_code,
    takes,
};
use crate::opcode::{linked_at, nested, no_zero_delta, well_linked, OpCode};

verus! {

/// The calling convention of the generated routine.
#[derive(Debug, Clone, Copy, PartialEq, Eq, Structural)]
pub enum Abi {
    /// First integer argument in `rdi` (and `edi`).
    SystemV,
    /// First integer argument in `rcx` (and `ecx`).
    Windows,
}

/// Why no machine code was generated.
#[derive(Debug, Clone, PartialEq, Eq)]
pub enum CodegenError {
    /// The assembler refused an instruction; the text is its message.
    Encoding(String),
    /// The instruction at this index closes a loop though none is open.
    UnopenedLoop(usize),
    /// The sequence ended with the loop of this number, counted from zero in
    /// order of opening, still open.
    UnclosedLoop(u64),
    /// The instruction at this index opens one loop more than labels can be
    /// numbered for.
    TooManyLoops(usize),
    /// The instruction at this index is an arithmetic instruction with a
    /// delta of zero.
    ZeroDelta(usize),
    /// A step names a label with this number, which the plan does not have.
    UnknownLabel(u64),
}

/// One machine instruction, or the binding of a label, as handed to the
/// assembler. The cursor register holds the address of the current cell.
/// Labels are numbered from one.
#[derive(Debug, Clone, Copy, PartialEq, Eq, Structural)]
pub enum Emit {
    /// Saves the cursor register, which belongs to the caller.
    SaveCursor,
    /// Copies the routine's argument, the tape's address, to the cursor
    /// register.
    LoadCursor(Abi),
    /// Increments the current cell.
    IncCell,
    /// Decrements the current cell.
    DecCell,
    /// Adds a byte to the current cell, modulo 256.
    AddCell(u8),
    /// Subtracts a byte from the current cell, modulo 256.
    SubCell(u8),
    /// Increments the cursor register.
    IncCursor,
    /// Decrements the cursor register.
    DecCursor,
    /// Adds an immediate to the cursor register.
    AddCursor(i32),
    /// Subtracts an immediate from the cursor register.
    SubCursor(i32),
    /// Compares the current cell with zero.
    TestCell,
    /// Jumps to a label if the comparison found zero.
    JumpIfZero(u64),
    /// Jumps to a label if the comparison found no zero.
    JumpIfNotZero(u64),
    /// Binds a label to the next instruction.
    Bind(u64),
    /// Loads the four bytes at the cursor into the accumulator, whose low byte
    /// is then the current cell.
    LoadCell,
    /// Loads an immediate into the accumulator.
    LoadFactor(u32),
    /// Multiplies the accumulator's low byte by the current cell; the low
    /// byte of the product is the product modulo 256.
    MulCell,
    /// Adds the accumulator's low byte to the cell at an offset from the
    /// cursor.
    AddLowByteAt(i16),
    /// Stores zero in the current cell.
    ClearCell,
    /// Moves the current cell, zero-extended, to the first argument register.
    PassCell(Abi),
    /// Loads the address of the character-output routine.
    LoadAddress(u64),
    /// Calls the address loaded last.
    CallAddress,
    /// Restores the cursor register.
    RestoreCursor,
    /// Sets the status that the routine returns to zero.
    ClearStatus,
    /// Returns to the caller.
    Return,
}

impl Emit {
    /// The number of the label that this step names, if it names one.
    pub open spec fn label(self) -> Option<u64> {
        match self {
            Emit::JumpIfZero(k) => Some(k),
            Emit::JumpIfNotZero(k) => Some(k),
            Emit::Bind(k) => Some(k),
            _ => None,
        }
    }
}

/// The steps of a routine and the number of its labels.
#[derive(Debug, Clone, PartialEq, Eq)]
pub struct Plan {
    /// The steps in the order in which the assembler gets them.
    pub steps: Vec<Emit>,
    /// The number of labels; they are numbered from one to this.
    pub labels: u64,
}

/// The greatest number of loops whose labels can be numbered.
pub const MAX_LOOPS: u64 = 0x7fff_ffff_ffff_fffe;

/// The label on the first instruction of the body of the loop numbered `k`.
pub open spec fn body_label(k: int) -> u64 {
    (2 * k + 1) as u64
}

/// The label behind the loop numbered `k`.
pub open spec fn exit_label(k: int) -> u64 {
    (2 * k + 2) as u64
}

/// The steps at the start of every routine.
pub open spec fn prologue(abi: Abi) -> Seq<Emit> {
    seq![Emit::SaveCursor, Emit::LoadCursor(abi)]
}

/// The steps at the end of every routine.
pub open spec fn epilogue() -> Seq<Emit> {
    seq![Emit::RestoreCursor, Emit::ClearStatus, Emit::Return]
}

/// The steps for an instruction that is neither a jump nor an arithmetic
/// instruction with a delta of zero. A cell delta is taken modulo 256, as the
/// cell is a byte: a delta beyond one byte becomes the byte that has the same
/// effect, and a multiple of 256 becomes no step at all.
pub open spec fn plain_steps(op: OpCode, abi: Abi, putchar: u64) -> Seq<Emit> {
    match op {
        OpCode::AlterValue(v) => if v == 1 {
            seq![Emit::IncCell]
        } else if v == -1 {
            seq![Emit::DecCell]
        } else if v % 256 == 0 {
            Seq::empty()
        } else if v > 0 {
            seq![Emit::AddCell((v % 256) as u8)]
        } else {
            seq![Emit::SubCell((-v % 256) as u8)]
        },
        OpCode::AlterPointer(v) => if v == 1 {
            seq![Emit::IncCursor]
        } else if v == -1 {
            seq![Emit::DecCursor]
        } else if v > 0 {
            seq![Emit::AddCursor(v as i32)]
        } else {
            seq![Emit::SubCursor((-v) as i32)]
        },
        OpCode::AddMul(offset, factor) => if factor == 1 {
            seq![Emit::LoadCell, Emit::AddLowByteAt(offset)]
        } else {
            seq![Emit::LoadFactor(factor as u32), Emit::MulCell, Emit::AddLowByteAt(offset)]
        },
        OpCode::SetZero => seq![Emit::ClearCell],
        OpCode::PutChar => seq![
            Emit::PassCell(abi),
            Emit::LoadAddress(putchar),
            Emit::CallAddress,
        ],
        _ => Seq::empty(),
    }
}

/// The steps that open the loop numbered `k`: skip the loop if the cell is
/// zero, else fall into the body.
pub open spec fn open_steps(k: int) -> Seq<Emit> {
    seq![Emit::TestCell, Emit::JumpIfZero(exit_label(k)), Emit::Bind(body_label(k))]
}

/// The steps that close the loop numbered `k`: go back to the body if the
/// cell is not zero, else fall out of the loop.
pub open spec fn close_steps(k: int) -> Seq<Emit> {
    seq![Emit::TestCell, Emit::JumpIfNotZero(body_label(k)), Emit::Bind(exit_label(k))]
}

/// Whether an instruction is an arithmetic instruction with a delta of zero.
pub open spec fn is_zero_delta(op: OpCode) -> bool {
    op == OpCode::AlterValue(0) || op == OpCode::AlterPointer(0)
}

/// The lowering from instruction `i` on, with the steps so far, the numbers of
/// the loops still open, innermost last, and the number of loops opened.
pub open spec fn plan_from(
    program: Seq<OpCode>,
    abi: Abi,
    putchar: u64,
    i: int,
    out: Seq<Emit>,
    open: Seq<u64>,
    opened: int,
) -> Result<Seq<Emit>, CodegenError>
    decreases program.len() - i,
{
    if i < 0 || i >= program.len() {
        if open.len() == 0 {
            Ok(out + epilogue())
        } else {
            Err(CodegenError::UnclosedLoop(open.last()))
        }
    } else if is_zero_delta(program[i]) {
        Err(CodegenError::ZeroDelta(i as usize))
    } else if program[i] is JumpForward {
        if opened > MAX_LOOPS {
            Err(CodegenError::TooManyLoops(i as usize))
        } else {
            plan_from(
                program,
                abi,
                putchar,
                i + 1,
                out + open_steps(opened),
                open.push(opened as u64),
                opened + 1,
            )
        }
    } else if program[i] is JumpBackward {
        if open.len() == 0 {
            Err(CodegenError::UnopenedLoop(i as usize))
        } else {
            plan_from(
                program,
                abi,
                putchar,
                i + 1,
                out + close_steps(open.last() as int),
                open.drop_last(),
                opened,
            )
        }
    } else {
        plan_from(
            program,
            abi,
            putchar,
            i + 1,
            out + plain_steps(program[i], abi, putchar),
            open,
            opened,
        )
    }
}

/// The steps of the routine for a program, or the first fault found in it:
/// the prologue, the steps of each instruction in order, the epilogue. Loops
/// are numbered from zero in order of opening, and a close belongs to the
/// innermost open loop.
pub open spec fn plan_spec(program: Seq<OpCode>, abi: Abi, putchar: u64) -> Result<
    Seq<Emit>,
    CodegenError,
> {
    plan_from(program, abi, putchar, 0, prologue(abi), Seq::empty(), 0)
}

/// Every label named in the steps has a number from one to `labels`.
pub open spec fn labels_below(steps: Seq<Emit>, labels: int) -> bool {
    forall|i: int|
        0 <= i < steps.len() ==> match (#[trigger] steps[i]).label() {
            Some(k) => 1 <= k <= labels,
            None => true,
        }
}

/// How many of the first `n` instructions open a loop.
pub open spec fn opens_in(program: Seq<OpCode>, n: int) -> nat
    decreases n,
{
    if n <= 0 {
        0
    } else if program[n - 1] is JumpForward {
        opens_in(program, n - 1) + 1
    } else {
        opens_in(program, n - 1)
    }
}

fn push_plain(out: &mut Vec<Emit>, op: OpCode, abi: Abi, putchar: u64)
    requires
        !op.is_jump(),
        !is_zero_delta(op),
    ensures
        final(out)@ == old(out)@ + plain_steps(op, abi, putchar),
{
    let ghost before = out@;
    match op {
        OpCode::AlterValue(v) => {
            if v == 1 {
                out.push(Emit::IncCell);
            } else if v == -1 {
                out.push(Emit::DecCell);
            } else if v > 0 {
                let byte: u8 = (v % 256) as u8;
                if byte != 0 {
                    out.push(Emit::AddCell(byte));
                }
            } else {
                let size: i32 = -(v as i32);
                let byte: u8 = (size % 256) as u8;
                if byte != 0 {
                    out.push(Emit::SubCell(byte));
                }
            }
        },
        OpCode::AlterPointer(v) => {
            if v == 1 {
                out.push(Emit::IncCursor);
            } else if v == -1 {
                out.push(Emit::DecCursor);
            } else if v > 0 {
                out.push(Emit::AddCursor(v as i32));
            } else {
                out.push(Emit::SubCursor(-(v as i32)));
            }
        },
        OpCode::AddMul(offset, factor) => {
            if factor == 1 {
                out.push(Emit::LoadCell);
            } else {
                out.push(Emit::LoadFactor(factor as u32));
                out.push(Emit::MulCell);
            }
            out.push(Emit::AddLowByteAt(offset));
        },
        OpCode::SetZero => {
            out.push(Emit::ClearCell);
        },
        OpCode::PutChar => {
            out.push(Emit::PassCell(abi));
            out.push(Emit::LoadAddress(putchar));
            out.push(Emit::CallAddress);
        },
        _ => {},
    }
    assert(out@ =~= before + plain_steps(op, abi, putchar));
}

fn is_zero(op: &OpCode) -> (r: bool)
    ensures
        r == is_zero_delta(*op),
{
    match op {
        OpCode::AlterValue(v) => *v == 0,
        OpCode::AlterPointer(v) => *v == 0,
        _ => false,
    }
}

/// Lowers a program to the steps of its routine for the given calling
/// convention, which calls the character-output routine at the address
/// `putchar`.
///
/// Fails exactly on a program with an arithmetic instruction of delta zero, a
/// loop-close with no open loop, a loop left open, or more than `MAX_LOOPS`
/// loops, and reports the first of these in program order.
pub fn plan(program: &Vec<OpCode>, abi: Abi, putchar: u64) -> (r: Result<Plan, CodegenError>)
    ensures
        match r {
            Ok(p) => plan_spec(program@, abi, putchar) == Ok::<Seq<Emit>, CodegenError>(p.steps@)
                && p.labels == 2 * opens_in(program@, program@.len() as int) && labels_below(
                p.steps@,
                p.labels as int,
            ),
            Err(e) => plan_spec(program@, abi, putchar) == Err::<Seq<Emit>, CodegenError>(e),
        },
{
    let n: usize = program.len();
    let mut out: Vec<Emit> = Vec::new();
    out.push(Emit::SaveCursor);
    out.push(Emit::LoadCursor(abi));
    assert(out@ =~= prologue(abi));
    let mut open: Vec<u64> = Vec::new();
    let mut opened: u64 = 0;
    let mut i: usize = 0;
    while i < n
        invariant
            n == program@.len(),
            i <= n,
            opened <= i,
            opened <= MAX_LOOPS + 1,
            opened == opens_in(program@, i as int),
            plan_spec(program@, abi, putchar) == plan_from(
                program@,
                abi,
                putchar,
                i as int,
                out@,
                open@,
                opened as int,
            ),
            labels_below(out@, 2 * opened),
            forall|k: int| 0 <= k < open@.len() ==> open@[k] < opened,
        decreases n - i,
    {
        let op: OpCode = program[i];
        let ghost before = out@;
        if is_zero(&op) {
            return Err(CodegenError::ZeroDelta(i));
        }
        match op {
            OpCode::JumpForward(_) => {
                if opened > MAX_LOOPS {
                    return Err(CodegenError::TooManyLoops(i));
                }
                out.push(Emit::TestCell);
                out.push(Emit::JumpIfZero(2 * opened + 2));
                out.push(Emit::Bind(2 * opened + 1));
                assert(out@ =~= before + open_steps(opened as int));
                open.push(opened);
                opened += 1;
            },
            OpCode::JumpBackward(_) => {
                if open.len() == 0 {
                    return Err(CodegenError::UnopenedLoop(i));
                }
                let k: u64 = open[open.len() - 1];
                proof {
                    assert(open@.drop_last() =~= open@.subrange(0, open@.len() - 1));
                }
                open.pop();
                out.push(Emit::TestCell);
                out.push(Emit::JumpIfNotZero(2 * k + 1));
                out.push(Emit::Bind(2 * k + 2));
                assert(out@ =~= before + close_steps(k as int));
            },
            _ => {
                push_plain(&mut out, op, abi, putchar);
                assert forall|j: int| 0 <= j < out@.len() implies match (#[trigger] out@[j]).label() {
                    Some(k) => 1 <= k <= 2 * opened,
                    None => true,
                } by {
                    if j >= before.len() {
                        assert(out@[j] == plain_steps(op, abi, putchar)[j - before.len()]);
                    } else {
                        assert(out@[j] == before[j]);
                    }
                }
            },
        }
        i += 1;
    }
    if open.len() != 0 {
        return Err(CodegenError::UnclosedLoop(open[open.len() - 1]));
    }
    let ghost before = out@;
    out.push(Emit::RestoreCursor);
    out.push(Emit::ClearStatus);
    out.push(Emit::Return);
    assert(out@ =~= before + epilogue());
    Ok(Plan { steps: out, labels: 2 * opened })
}

/// Whether entry `j` of a table of labels holds the label numbered `j + 1`,
/// for every entry.
pub open spec fn numbered(table: Seq<CodeLabel>) -> bool {
    forall|j: int| 0 <= j < table.len() ==> label_number(#[trigger] table[j]) == j + 1
}

/// Whether the label numbered `id` is bound in the steps.
pub open spec fn bound_in(steps: Seq<Emit>, id: u64) -> bool
    decreases steps.len(),
{
    if steps.len() == 0 {
        false
    } else {
        steps.last() == Emit::Bind(id) || bound_in(steps.drop_last(), id)
    }
}

/// Whether the assembler takes `step` after the steps `before`. A label can
/// be bound once.
pub open spec fn accepted(before: Seq<Emit>, step: Emit) -> bool {
    &&& takes(before, step)
    &&& step matches Emit::Bind(id) ==> !bound_in(before, id)
}

/// Whether the assembler takes each of the steps in its turn and then makes
/// machine code of them.
pub open spec fn encodes(steps: Seq<Emit>) -> bool {
    &&& forall|i: int| 0 <= i < steps.len() ==> accepted(#[trigger] steps.take(i), steps[i])
    &&& assembles(steps)
}

/// Whether the labels of a table are bound exactly where the steps bind them.
pub open spec fn tracks(table: Seq<CodeLabel>, done: Seq<Emit>) -> bool {
    forall|j: int|
        0 <= j < table.len() ==> (label_bound(#[trigger] table[j]) <==> bound_in(
            done,
            label_number(table[j]),
        ))
}

proof fn lemma_bound_in_push(done: Seq<Emit>, step: Emit, id: u64)
    ensures
        bound_in(done.push(step), id) == (step == Emit::Bind(id) || bound_in(done, id)),
{
    assert(done.push(step).drop_last() =~= done);
}

proof fn lemma_tracks_push(table: Seq<CodeLabel>, done: Seq<Emit>, step: Emit)
    requires
        tracks(table, done),
        !(step is Bind),
    ensures
        tracks(table, done.push(step)),
{
    assert forall|j: int| 0 <= j < table.len() implies (label_bound(#[trigger] table[j])
        <==> bound_in(done.push(step), label_number(table[j]))) by {
        lemma_bound_in_push(done, step, label_number(table[j]));
    }
}

fn emit(a: &mut CodeAssembler, step: Emit, table: &mut Vec<CodeLabel>) -> (r: Result<
    (),
    IcedError,
>)
    requires
        numbered(old(table)@),
        tracks(old(table)@, listing(*old(a))),
        match step.label() {
            Some(k) => 1 <= k <= old(table)@.len(),
            None => true,
        },
    ensures
        final(table)@.len() == old(table)@.len(),
        numbered(final(table)@),
        r is Ok <==> accepted(listing(*old(a)), step),
        r is Ok ==> listing(*final(a)) == listing(*old(a)).push(step),
        r is Ok ==> tracks(final(table)@, listing(*final(a))),
{
    let size: usize = table.len();
    let ghost before = listing(*a);
    let ghost labels = table@;
    let r = match step {
        Emit::SaveCursor => assembler::save_cursor(a),
        Emit::LoadCursor(abi) => match abi {
            Abi::SystemV => assembler::load_cursor_from_rdi(a),
            Abi::Windows => assembler::load_cursor_from_rcx(a),
        },
        Emit::IncCell => assembler::inc_cell(a),
        Emit::DecCell => assembler::dec_cell(a),
        Emit::AddCell(v) => assembler::add_cell(a, v),
        Emit::SubCell(v) => assembler::sub_cell(a, v),
        Emit::IncCursor => assembler::inc_cursor(a),
        Emit::DecCursor => assembler::dec_cursor(a),
        Emit::AddCursor(v) => assembler::add_cursor(a, v),
        Emit::SubCursor(v) => assembler::sub_cursor(a, v),
        Emit::TestCell => assembler::test_cell(a),
        Emit::JumpIfZero(k) => assembler::jump_if_zero(a, table, (k - 1) as usize),
        Emit::JumpIfNotZero(k) => assembler::jump_if_not_zero(a, table, (k - 1) as usize),
        Emit::Bind(k) => assembler::bind_label(a, table, (k - 1) as usize),
        Emit::LoadCell => assembler::load_cell(a),
        Emit::LoadFactor(n) => assembler::load_factor(a, n),
        Emit::MulCell => assembler::mul_cell(a),
        Emit::AddLowByteAt(offset) => assembler::add_low_byte_at(a, offset),
        Emit::ClearCell => assembler::clear_cell(a),
        Emit::PassCell(abi) => match abi {
            Abi::SystemV => assembler::pass_cell_in_edi(a),
            Abi::Windows => assembler::pass_cell_in_ecx(a),
        },
        Emit::LoadAddress(address) => assembler::load_address(a, address),
        Emit::CallAddress => assembler::call_address(a),
        Emit::RestoreCursor => assembler::restore_cursor(a),
        Emit::ClearStatus => assembler::clear_status(a),
        Emit::Return => assembler::leave(a),
    };
    proof {
        if r is Ok {
            match step {
                Emit::Bind(k) => {
                    assert forall|j: int| 0 <= j < table@.len() implies (label_bound(
                        #[trigger] table@[j],
                    ) <==> bound_in(before.push(step), label_number(table@[j]))) by {
                        lemma_bound_in_push(before, step, label_number(table@[j]));
                        assert(label_number(table@[j]) == label_number(labels[j]));
                        assert(label_number(labels[j]) == j + 1);
                        if j != k - 1 {
                            assert(label_bound(table@[j]) == label_bound(labels[j]));
                        }
                    }
                },
                _ => {
                    lemma_tracks_push(labels, before, step);
                },
            }
        }
    }
    r
}

fn label_of(step: &Emit) -> (r: Option<u64>)
    ensures
        r == step.label(),
{
    match step {
        Emit::JumpIfZero(k) => Some(*k),
        Emit::JumpIfNotZero(k) => Some(*k),
        Emit::Bind(k) => Some(*k),
        _ => None,
    }
}

/// Hands the steps of a plan to the assembler, in order, and returns the
/// machine code that it makes of them.
///
/// A plan that names a label it does not have is refused. Any other plan
/// succeeds exactly where the assembler takes each step in its turn and then
/// assembles them: the result is then the machine code of exactly these
/// steps, and else `Encoding` with the assembler's message.
pub fn encode(plan: &Plan) -> (r: Result<Vec<u8>, CodegenError>)
    ensures
        r matches Ok(bytes) ==> bytes@ == machine_code(plan.steps@),
        labels_below(plan.steps@, plan.labels as int) ==> (r is Ok <==> encodes(plan.steps@)),
        labels_below(plan.steps@, plan.labels as int) ==> r is Ok || (r matches Err(e) && e
            is Encoding),
        !labels_below(plan.steps@, plan.labels as int) ==> r is Err,
        r matches Err(e) ==> e is Encoding || (e matches CodegenError::UnknownLabel(k) && !(1
            <= k <= plan.labels)),
{
    let mut a = match assembler::new_assembler() {
        Ok(a) => a,
        Err(e) => {
            return Err(CodegenError::Encoding(assembler::message_of(&e)));
        },
    };
    let mut table: Vec<CodeLabel> = Vec::new();
    let mut made: u64 = 0;
    while made < plan.labels
        invariant
            made <= plan.labels,
            table@.len() == made,
            labels_made(a) == made,
            listing(a) == Seq::<Emit>::empty(),
            numbered(table@),
            forall|j: int| 0 <= j < table@.len() ==> !label_bound(#[trigger] table@[j]),
        decreases plan.labels - made,
    {
        let label = assembler::new_label(&mut a);
        table.push(label);
        made += 1;
    }
    let n: usize = plan.steps.len();
    let mut i: usize = 0;
    while i < n
        invariant
            n == plan.steps@.len(),
            i <= n,
            table@.len() == plan.labels,
            numbered(table@),
            tracks(table@, listing(a)),
            listing(a) == plan.steps@.take(i as int),
            labels_below(plan.steps@.take(i as int), plan.labels as int),
            forall|j: int|
                0 <= j < i ==> accepted(#[trigger] plan.steps@.take(j), plan.steps@[j]),
        decreases n - i,
    {
        let step: Emit = plan.steps[i];
        match label_of(&step) {
            Some(k) => {
                if k < 1 || k > plan.labels {
                    return Err(CodegenError::UnknownLabel(k));
                }
            },
            None => {},
        }
        match emit(&mut a, step, &mut table) {
            Ok(_) => {},
            Err(e) => {
                return Err(CodegenError::Encoding(assembler::message_of(&e)));
            },
        }
        proof {
            let done = plan.steps@.take(i + 1);
            assert(done =~= plan.steps@.take(i as int).push(step));
            assert forall|j: int| 0 <= j < done.len() implies match (#[trigger] done[j]).label() {
                Some(k) => 1 <= k <= plan.labels,
                None => true,
            } by {
                if j < i {
                    assert(done[j] == plan.steps@.take(i as int)[j]);
                }
            }
        }
        i += 1;
    }
    proof {
        assert(plan.steps@.take(n as int) =~= plan.steps@);
    }
    match assembler::assemble(&mut a) {
        Ok(bytes) => Ok(bytes),
        Err(e) => Err(CodegenError::Encoding(assembler::message_of(&e))),
    }
}

/// Generates the machine code of a program: a routine that takes the tape's
/// address as its one argument, runs the program on it, and returns zero. The
/// routine calls the character-output routine at the address `putchar`, so the
/// code is valid only in the process that holds that address.
///
/// A program that has no plan is refused with the plan's fault. Any other
/// program succeeds exactly where the assembler takes each step of the plan
/// in its turn and then assembles them: the result is then the machine code
/// of the plan's steps, and else `Encoding`.
pub fn compile_to_native(program: &Vec<OpCode>, abi: Abi, putchar: u64) -> (r: Result<
    Vec<u8>,
    CodegenError,
>)
    ensures
        match plan_spec(program@, abi, putchar) {
            Ok(steps) => (r is Ok <==> encodes(steps)) && match r {
                Ok(bytes) => bytes@ == machine_code(steps),
                Err(e) => e is Encoding,
            },
            Err(fault) => r matches Err(e) && e == fault,
        },
{
    match plan(program, abi, putchar) {
        Ok(p) => encode(&p),
        Err(e) => Err(e),
    }
}


/// Whether `slots` lists, in ascending order, exactly the loop-open slots
/// before `i` whose partner stands at `i` or behind it: the loops open at `i`.
pub open spec fn open_at(program: Seq<OpCode>, i: int, slots: Seq<int>) -> bool {
    &&& forall|k: int|
        0 <= k < slots.len() ==> 0 <= #[trigger] slots[k] < i && program[slots[k]] is JumpForward
            && program[slots[k]].target() >= i
    &&& forall|k: int, l: int| 0 <= k < l < slots.len() ==> slots[k] < slots[l]
    &&& forall|a: int|
        0 <= a < i && (#[trigger] program[a]) is JumpForward && program[a].target() >= i
            ==> exists|k: int| 0 <= k < slots.len() && slots[k] == a
}

proof fn lemma_plan_from_ok(
    program: Seq<OpCode>,
    abi: Abi,
    putchar: u64,
    i: int,
    out: Seq<Emit>,
    open: Seq<u64>,
    opened: int,
    slots: Seq<int>,
)
    requires
        well_linked(program),
        nested(program),
        no_zero_delta(program),
        program.len() <= MAX_LOOPS,
        0 <= i <= program.len(),
        0 <= opened <= i,
        open.len() == slots.len(),
        open_at(program, i, slots),
    ensures
        plan_from(program, abi, putchar, i, out, open, opened) is Ok,
    decreases program.len() - i,
{
    if i >= program.len() {
        if slots.len() > 0 {
            assert(linked_at(program, slots[0]));
        }
    } else {
        let op = program[i];
        assert(linked_at(program, i));
        assert(!is_zero_delta(op));
        if op is JumpForward {
            let next = slots.push(i);
            assert forall|k: int| 0 <= k < next.len() implies 0 <= #[trigger] next[k] < i + 1
                && program[next[k]] is JumpForward && program[next[k]].target() >= i + 1 by {
                if k < slots.len() {
                    assert(next[k] == slots[k]);
                    assert(linked_at(program, slots[k]));
                }
            }
            assert forall|a: int|
                0 <= a < i + 1 && (#[trigger] program[a]) is JumpForward && program[a].target() >= i
                    + 1 implies exists|k: int| 0 <= k < next.len() && next[k] == a by {
                if a < i {
                    let k = choose|k: int| 0 <= k < slots.len() && slots[k] == a;
                    assert(next[k] == a);
                } else {
                    assert(next[slots.len() as int] == a);
                }
            }
            lemma_plan_from_ok(
                program,
                abi,
                putchar,
                i + 1,
                out + open_steps(opened),
                open.push(opened as u64),
                opened + 1,
                next,
            );
        } else if op is JumpBackward {
            let p = op.target();
            assert(program[p] is JumpForward && program[p].target() == i);
            let w = choose|k: int| 0 <= k < slots.len() && slots[k] == p;
            let last = slots.len() - 1;
            if w < last {
                assert(linked_at(program, slots[last]));
                assert(program[slots[last]].is_jump());
            }
            let next = slots.drop_last();
            assert forall|k: int| 0 <= k < next.len() implies 0 <= #[trigger] next[k] < i + 1
                && program[next[k]] is JumpForward && program[next[k]].target() >= i + 1 by {
                assert(next[k] == slots[k]);
                assert(linked_at(program, slots[k]));
            }
            assert forall|a: int|
                0 <= a < i + 1 && (#[trigger] program[a]) is JumpForward && program[a].target() >= i
                    + 1 implies exists|k: int| 0 <= k < next.len() && next[k] == a by {
                let k = choose|k: int| 0 <= k < slots.len() && slots[k] == a;
                assert(next[k] == a);
            }
            lemma_plan_from_ok(
                program,
                abi,
                putchar,
                i + 1,
                out + close_steps(open.last() as int),
                open.drop_last(),
                opened,
                next,
            );
        } else {
            assert forall|k: int| 0 <= k < slots.len() implies 0 <= #[trigger] slots[k] < i + 1
                && program[slots[k]] is JumpForward && program[slots[k]].target() >= i + 1 by {
                assert(linked_at(program, slots[k]));
            }
            assert forall|a: int|
                0 <= a < i + 1 && (#[trigger] program[a]) is JumpForward && program[a].target() >= i
                    + 1 implies exists|k: int| 0 <= k < slots.len() && slots[k] == a by {
                let k = choose|k: int| 0 <= k < slots.len() && slots[k] == a;
            }
            lemma_plan_from_ok(
                program,
                abi,
                putchar,
                i + 1,
                out + plain_steps(op, abi, putchar),
                open,
                opened,
                slots,
            );
        }
    }
}

/// Code generation finds no fault in a well-formed program: where every jump
/// is linked with its partner, loops nest and no delta is zero, as in every
/// compiled program, the program has a plan, so only the assembler can still
/// refuse it.
pub proof fn lemma_well_formed_has_plan(program: Seq<OpCode>, abi: Abi, putchar: u64)
    requires
        well_linked(program),
        nested(program),
        no_zero_delta(program),
        program.len() <= MAX_LOOPS,
    ensures
        plan_spec(program, abi, putchar) is Ok,
{
    lemma_plan_from_ok(program, abi, putchar, 0, prologue(abi), Seq::empty(), 0, Seq::empty());
}

} // verus!
