//! The calls into the `iced_x86` assembler. Each function here hands one
//! instruction, with fixed registers, to a `CodeAssembler`, and says which step
//! the assembler's listing has gained if the assembler took it. Whether the
//! assembler takes a step, and what it makes of a listing, is not proved here:
//! both depend on the steps alone, and have names only. The tape cursor lives
//! in `rbx`.

use vstd::prelude::*;
use iced_x86::code_asm::{al, byte_ptr, eax, ecx, edi, rax, rbx, rcx, rdi, CodeAssembler, CodeLabel};
use iced_x86::IcedError;
use crate::native::{Abi, Emit};

verus! {

#[verifier::external_type_specification]
#[verifier::external_body]
pub struct ExCodeAssembler(CodeAssembler);

#[verifier::external_type_specification]
#[verifier::external_body]
pub struct ExCodeLabel(CodeLabel);

#[verifier::external_type_specification]
#[verifier::external_body]
pub struct ExIcedError(IcedError);

/// The steps that an assembler holds: one for each instruction added and each
/// label bound, in the order in which they were handed to it.
pub uninterp spec fn listing(a: CodeAssembler) -> Seq<Emit>;

/// The number of labels that an assembler has created.
pub uninterp spec fn labels_made(a: CodeAssembler) -> nat;

/// The number that the assembler gave a label when it created it.
pub uninterp spec fn label_number(l: CodeLabel) -> u64;

/// The bytes that `CodeAssembler::assemble` makes, at base address zero, of
/// an assembler for 64-bit code that holds the given steps.
pub uninterp spec fn machine_code(steps: Seq<Emit>) -> Seq<u8>;

/// Whether an assembler for 64-bit code that holds the steps `before` takes
/// `step` as its next: whether the call that adds it returns `Ok`. For the
/// binding of a label this is asked of a label that is not bound yet.
pub uninterp spec fn takes(before: Seq<Emit>, step: Emit) -> bool;

/// Whether `CodeAssembler::assemble` returns `Ok` for an assembler for 64-bit
/// code that holds the given steps.
pub uninterp spec fn assembles(steps: Seq<Emit>) -> bool;

/// Whether a label has been bound to an instruction.
pub uninterp spec fn label_bound(l: CodeLabel) -> bool;

/// `CodeAssembler::new` for 64-bit code: an assembler that holds no
/// instruction and has created no label. The call fails for no bitness but
/// one that is not 16, 32 or 64.
#[verifier::external_body]
pub(crate) fn new_assembler() -> (r: Result<CodeAssembler, IcedError>)
    ensures
        r is Ok,
        r matches Ok(a) ==> listing(a) == Seq::<Emit>::empty() && labels_made(a) == 0,
{
    CodeAssembler::new(64)
}

/// `CodeAssembler::create_label`: a fresh label, not yet bound. The assembler
/// numbers its labels from one, in order of creation; its instructions stay
/// as they are.
#[verifier::external_body]
pub(crate) fn new_label(a: &mut CodeAssembler) -> (r: CodeLabel)
    requires
        labels_made(*old(a)) < u64::MAX,
    ensures
        label_number(r) == labels_made(*old(a)) + 1,
        !label_bound(r),
        labels_made(*final(a)) == labels_made(*old(a)) + 1,
        listing(*final(a)) == listing(*old(a)),
{
    a.create_label()
}

/// `CodeAssembler::set_label` on entry `k` of a table of labels: binds that
/// label to the next instruction. Every label keeps its number, and every
/// other label stays bound or unbound as it was. The assembler refuses a
/// label that is bound already; whether it takes an unbound one depends on
/// the label's number and on the steps it holds.
#[verifier::external_body]
pub(crate) fn bind_label(a: &mut CodeAssembler, labels: &mut Vec<CodeLabel>, k: usize) -> (r: Result<
    (),
    IcedError,
>)
    requires
        k < old(labels)@.len(),
    ensures
        final(labels)@.len() == old(labels)@.len(),
        forall|j: int|
            0 <= j < old(labels)@.len() ==> label_number(#[trigger] final(labels)@[j])
                == label_number(old(labels)@[j]),
        forall|j: int|
            0 <= j < old(labels)@.len() && j != k ==> label_bound(#[trigger] final(labels)@[j])
                == label_bound(old(labels)@[j]),
        r is Ok ==> label_bound(final(labels)@[k as int]),
        r is Ok <==> !label_bound(old(labels)@[k as int]) && takes(
            listing(*old(a)),
            Emit::Bind(label_number(old(labels)@[k as int])),
        ),
        r is Ok ==> listing(*final(a)) == listing(*old(a)).push(
            Emit::Bind(label_number(old(labels)@[k as int])),
        ),
{
    a.set_label(&mut labels[k])
}

/// `je` to entry `k` of a table of labels.
#[verifier::external_body]
pub(crate) fn jump_if_zero(a: &mut CodeAssembler, labels: &Vec<CodeLabel>, k: usize) -> (r: Result<
    (),
    IcedError,
>)
    requires
        k < labels@.len(),
    ensures
        r is Ok <==> takes(listing(*old(a)), Emit::JumpIfZero(label_number(labels@[k as int]))),
        r is Ok ==> listing(*final(a)) == listing(*old(a)).push(
            Emit::JumpIfZero(label_number(labels@[k as int])),
        ),
{
    a.je(labels[k])
}

/// `jne` to entry `k` of a table of labels.
#[verifier::external_body]
pub(crate) fn jump_if_not_zero(a: &mut CodeAssembler, labels: &Vec<CodeLabel>, k: usize) -> (r:
    Result<(), IcedError>)
    requires
        k < labels@.len(),
    ensures
        r is Ok <==> takes(listing(*old(a)), Emit::JumpIfNotZero(label_number(labels@[k as int]))),
        r is Ok ==> listing(*final(a)) == listing(*old(a)).push(
            Emit::JumpIfNotZero(label_number(labels@[k as int])),
        ),
{
    a.jne(labels[k])
}

/// `push rbx`.
#[verifier::external_body]
pub(crate) fn save_cursor(a: &mut CodeAssembler) -> (r: Result<(), IcedError>)
    ensures
        r is Ok <==> takes(listing(*old(a)), Emit::SaveCursor),
        r is Ok ==> listing(*final(a)) == listing(*old(a)).push(Emit::SaveCursor),
{
    a.push(rbx)
}

/// `mov rbx, rdi`.
#[verifier::external_body]
pub(crate) fn load_cursor_from_rdi(a: &mut CodeAssembler) -> (r: Result<(), IcedError>)
    ensures
        r is Ok <==> takes(listing(*old(a)), Emit::LoadCursor(Abi::SystemV)),
        r is Ok ==> listing(*final(a)) == listing(*old(a)).push(Emit::LoadCursor(Abi::SystemV)),
{
    a.mov(rbx, rdi)
}

/// `mov rbx, rcx`.
#[verifier::external_body]
pub(crate) fn load_cursor_from_rcx(a: &mut CodeAssembler) -> (r: Result<(), IcedError>)
    ensures
        r is Ok <==> takes(listing(*old(a)), Emit::LoadCursor(Abi::Windows)),
        r is Ok ==> listing(*final(a)) == listing(*old(a)).push(Emit::LoadCursor(Abi::Windows)),
{
    a.mov(rbx, rcx)
}

/// `inc byte ptr [rbx]`.
#[verifier::external_body]
pub(crate) fn inc_cell(a: &mut CodeAssembler) -> (r: Result<(), IcedError>)
    ensures
        r is Ok <==> takes(listing(*old(a)), Emit::IncCell),
        r is Ok ==> listing(*final(a)) == listing(*old(a)).push(Emit::IncCell),
{
    a.inc(byte_ptr(rbx))
}

/// `dec byte ptr [rbx]`.
#[verifier::external_body]
pub(crate) fn dec_cell(a: &mut CodeAssembler) -> (r: Result<(), IcedError>)
    ensures
        r is Ok <==> takes(listing(*old(a)), Emit::DecCell),
        r is Ok ==> listing(*final(a)) == listing(*old(a)).push(Emit::DecCell),
{
    a.dec(byte_ptr(rbx))
}

/// `add byte ptr [rbx], v`, with the byte `v` as the immediate.
#[verifier::external_body]
pub(crate) fn add_cell(a: &mut CodeAssembler, v: u8) -> (r: Result<(), IcedError>)
    ensures
        r is Ok <==> takes(listing(*old(a)), Emit::AddCell(v)),
        r is Ok ==> listing(*final(a)) == listing(*old(a)).push(Emit::AddCell(v)),
{
    a.add(byte_ptr(rbx), i32::from(v))
}

/// `sub byte ptr [rbx], v`, with the byte `v` as the immediate.
#[verifier::external_body]
pub(crate) fn sub_cell(a: &mut CodeAssembler, v: u8) -> (r: Result<(), IcedError>)
    ensures
        r is Ok <==> takes(listing(*old(a)), Emit::SubCell(v)),
        r is Ok ==> listing(*final(a)) == listing(*old(a)).push(Emit::SubCell(v)),
{
    a.sub(byte_ptr(rbx), i32::from(v))
}

/// `inc rbx`.
#[verifier::external_body]
pub(crate) fn inc_cursor(a: &mut CodeAssembler) -> (r: Result<(), IcedError>)
    ensures
        r is Ok <==> takes(listing(*old(a)), Emit::IncCursor),
        r is Ok ==> listing(*final(a)) == listing(*old(a)).push(Emit::IncCursor),
{
    a.inc(rbx)
}

/// `dec rbx`.
#[verifier::external_body]
pub(crate) fn dec_cursor(a: &mut CodeAssembler) -> (r: Result<(), IcedError>)
    ensures
        r is Ok <==> takes(listing(*old(a)), Emit::DecCursor),
        r is Ok ==> listing(*final(a)) == listing(*old(a)).push(Emit::DecCursor),
{
    a.dec(rbx)
}

/// `add rbx, v`.
#[verifier::external_body]
pub(crate) fn add_cursor(a: &mut CodeAssembler, v: i32) -> (r: Result<(), IcedError>)
    ensures
        r is Ok <==> takes(listing(*old(a)), Emit::AddCursor(v)),
        r is Ok ==> listing(*final(a)) == listing(*old(a)).push(Emit::AddCursor(v)),
{
    a.add(rbx, v)
}

/// `sub rbx, v`.
#[verifier::external_body]
pub(crate) fn sub_cursor(a: &mut CodeAssembler, v: i32) -> (r: Result<(), IcedError>)
    ensures
        r is Ok <==> takes(listing(*old(a)), Emit::SubCursor(v)),
        r is Ok ==> listing(*final(a)) == listing(*old(a)).push(Emit::SubCursor(v)),
{
    a.sub(rbx, v)
}

/// `cmp byte ptr [rbx], 0`.
#[verifier::external_body]
pub(crate) fn test_cell(a: &mut CodeAssembler) -> (r: Result<(), IcedError>)
    ensures
        r is Ok <==> takes(listing(*old(a)), Emit::TestCell),
        r is Ok ==> listing(*final(a)) == listing(*old(a)).push(Emit::TestCell),
{
    a.cmp(byte_ptr(rbx), 0)
}

/// `mov eax, [rbx]`.
#[verifier::external_body]
pub(crate) fn load_cell(a: &mut CodeAssembler) -> (r: Result<(), IcedError>)
    ensures
        r is Ok <==> takes(listing(*old(a)), Emit::LoadCell),
        r is Ok ==> listing(*final(a)) == listing(*old(a)).push(Emit::LoadCell),
{
    a.mov(eax, byte_ptr(rbx))
}

/// `mov eax, n`.
#[verifier::external_body]
pub(crate) fn load_factor(a: &mut CodeAssembler, n: u32) -> (r: Result<(), IcedError>)
    ensures
        r is Ok <==> takes(listing(*old(a)), Emit::LoadFactor(n)),
        r is Ok ==> listing(*final(a)) == listing(*old(a)).push(Emit::LoadFactor(n)),
{
    a.mov(eax, n)
}

/// `mul byte ptr [rbx]`.
#[verifier::external_body]
pub(crate) fn mul_cell(a: &mut CodeAssembler) -> (r: Result<(), IcedError>)
    ensures
        r is Ok <==> takes(listing(*old(a)), Emit::MulCell),
        r is Ok ==> listing(*final(a)) == listing(*old(a)).push(Emit::MulCell),
{
    a.mul(byte_ptr(rbx))
}

/// `add byte ptr [rbx + offset], al`.
#[verifier::external_body]
pub(crate) fn add_low_byte_at(a: &mut CodeAssembler, offset: i16) -> (r: Result<(), IcedError>)
    ensures
        r is Ok <==> takes(listing(*old(a)), Emit::AddLowByteAt(offset)),
        r is Ok ==> listing(*final(a)) == listing(*old(a)).push(Emit::AddLowByteAt(offset)),
{
    a.add(byte_ptr(rbx + offset), al)
}

/// `mov byte ptr [rbx], 0`.
#[verifier::external_body]
pub(crate) fn clear_cell(a: &mut CodeAssembler) -> (r: Result<(), IcedError>)
    ensures
        r is Ok <==> takes(listing(*old(a)), Emit::ClearCell),
        r is Ok ==> listing(*final(a)) == listing(*old(a)).push(Emit::ClearCell),
{
    a.mov(byte_ptr(rbx), 0)
}

/// `movzx edi, byte ptr [rbx]`.
#[verifier::external_body]
pub(crate) fn pass_cell_in_edi(a: &mut CodeAssembler) -> (r: Result<(), IcedError>)
    ensures
        r is Ok <==> takes(listing(*old(a)), Emit::PassCell(Abi::SystemV)),
        r is Ok ==> listing(*final(a)) == listing(*old(a)).push(Emit::PassCell(Abi::SystemV)),
{
    a.movzx(edi, byte_ptr(rbx))
}

/// `movzx ecx, byte ptr [rbx]`.
#[verifier::external_body]
pub(crate) fn pass_cell_in_ecx(a: &mut CodeAssembler) -> (r: Result<(), IcedError>)
    ensures
        r is Ok <==> takes(listing(*old(a)), Emit::PassCell(Abi::Windows)),
        r is Ok ==> listing(*final(a)) == listing(*old(a)).push(Emit::PassCell(Abi::Windows)),
{
    a.movzx(ecx, byte_ptr(rbx))
}

/// `mov rax, address`.
#[verifier::external_body]
pub(crate) fn load_address(a: &mut CodeAssembler, address: u64) -> (r: Result<(), IcedError>)
    ensures
        r is Ok <==> takes(listing(*old(a)), Emit::LoadAddress(address)),
        r is Ok ==> listing(*final(a)) == listing(*old(a)).push(Emit::LoadAddress(address)),
{
    a.mov(rax, address)
}

/// `call rax`.
#[verifier::external_body]
pub(crate) fn call_address(a: &mut CodeAssembler) -> (r: Result<(), IcedError>)
    ensures
        r is Ok <==> takes(listing(*old(a)), Emit::CallAddress),
        r is Ok ==> listing(*final(a)) == listing(*old(a)).push(Emit::CallAddress),
{
    a.call(rax)
}

/// `pop rbx`.
#[verifier::external_body]
pub(crate) fn restore_cursor(a: &mut CodeAssembler) -> (r: Result<(), IcedError>)
    ensures
        r is Ok <==> takes(listing(*old(a)), Emit::RestoreCursor),
        r is Ok ==> listing(*final(a)) == listing(*old(a)).push(Emit::RestoreCursor),
{
    a.pop(rbx)
}

/// `xor eax, eax`.
#[verifier::external_body]
pub(crate) fn clear_status(a: &mut CodeAssembler) -> (r: Result<(), IcedError>)
    ensures
        r is Ok <==> takes(listing(*old(a)), Emit::ClearStatus),
        r is Ok ==> listing(*final(a)) == listing(*old(a)).push(Emit::ClearStatus),
{
    a.xor(eax, eax)
}

/// `ret`.
#[verifier::external_body]
pub(crate) fn leave(a: &mut CodeAssembler) -> (r: Result<(), IcedError>)
    ensures
        r is Ok <==> takes(listing(*old(a)), Emit::Return),
        r is Ok ==> listing(*final(a)) == listing(*old(a)).push(Emit::Return),
{
    a.ret()
}

/// `CodeAssembler::assemble` at base address zero: the machine code of the
/// steps that the assembler holds. Whether it succeeds depends on those
/// steps alone.
#[verifier::external_body]
pub(crate) fn assemble(a: &mut CodeAssembler) -> (r: Result<Vec<u8>, IcedError>)
    ensures
        r is Ok <==> assembles(listing(*old(a))),
        r matches Ok(bytes) ==> bytes@ == machine_code(listing(*old(a))),
{
    a.assemble(0)
}

/// The message of an `IcedError`, by its `Display`.
#[verifier::external_body]
pub(crate) fn message_of(e: &IcedError) -> (r: String) {
    format!("{}", e)
}

} // verus!
