use bf_jit::compiler::compile;
use bf_jit::mem::{region_size, Action, Loader, Stage, PAGE_SIZE};
use bf_jit::native::{compile_to_native, encode, plan, Abi, CodegenError, Emit, Plan};
use bf_jit::opcode::OpCode;

#[test]
fn plan_wraps_the_body_in_prologue_and_epilogue() {
    let p = plan(&vec![OpCode::SetZero, OpCode::Nop], Abi::SystemV, 7).unwrap();
    assert_eq!(
        p.steps,
        vec![
            Emit::SaveCursor,
            Emit::LoadCursor(Abi::SystemV),
            Emit::ClearCell,
            Emit::RestoreCursor,
            Emit::ClearStatus,
            Emit::Return,
        ]
    );
    assert_eq!(p.labels, 0);
    let p = plan(&vec![], Abi::Windows, 7).unwrap();
    assert_eq!(p.steps[1], Emit::LoadCursor(Abi::Windows));
}

#[test]
fn plan_lowers_arithmetic_by_size() {
    let code = vec![
        OpCode::AlterValue(1),
        OpCode::AlterValue(-1),
        OpCode::AlterValue(5),
        OpCode::AlterValue(-5),
        OpCode::AlterPointer(1),
        OpCode::AlterPointer(-1),
        OpCode::AlterPointer(9),
        OpCode::AlterPointer(-32768),
    ];
    let p = plan(&code, Abi::SystemV, 0).unwrap();
    assert_eq!(
        p.steps[2..10].to_vec(),
        vec![
            Emit::IncCell,
            Emit::DecCell,
            Emit::AddCell(5),
            Emit::SubCell(5),
            Emit::IncCursor,
            Emit::DecCursor,
            Emit::AddCursor(9),
            Emit::SubCursor(32768),
        ]
    );
}

#[test]
fn plan_lowers_add_mul_and_put_char() {
    let code = vec![OpCode::AddMul(3, 1), OpCode::AddMul(-2, 5), OpCode::PutChar];
    let p = plan(&code, Abi::Windows, 0xdead_beef).unwrap();
    assert_eq!(
        p.steps[2..10].to_vec(),
        vec![
            Emit::LoadCell,
            Emit::AddLowByteAt(3),
            Emit::LoadFactor(5),
            Emit::MulCell,
            Emit::AddLowByteAt(-2),
            Emit::PassCell(Abi::Windows),
            Emit::LoadAddress(0xdead_beef),
            Emit::CallAddress,
        ]
    );
}

#[test]
fn plan_links_loops_innermost_first() {
    let code = compile(&"[[.].]".to_string()).unwrap();
    let p = plan(&code, Abi::SystemV, 0).unwrap();
    assert_eq!(p.labels, 4);
    let labels: Vec<Emit> = p
        .steps
        .iter()
        .copied()
        .filter(|s| matches!(s, Emit::JumpIfZero(_) | Emit::JumpIfNotZero(_) | Emit::Bind(_)))
        .collect();
    assert_eq!(
        labels,
        vec![
            Emit::JumpIfZero(2),
            Emit::Bind(1),
            Emit::JumpIfZero(4),
            Emit::Bind(3),
            Emit::JumpIfNotZero(3),
            Emit::Bind(4),
            Emit::JumpIfNotZero(1),
            Emit::Bind(2),
        ]
    );
}

#[test]
fn plan_reports_the_first_fault() {
    let abi = Abi::SystemV;
    assert_eq!(
        plan(&vec![OpCode::Nop, OpCode::AlterValue(0)], abi, 0),
        Err(CodegenError::ZeroDelta(1))
    );
    assert_eq!(plan(&vec![OpCode::AlterPointer(0)], abi, 0), Err(CodegenError::ZeroDelta(0)));
    assert_eq!(
        plan(&vec![OpCode::SetZero, OpCode::JumpBackward(0)], abi, 0),
        Err(CodegenError::UnopenedLoop(1))
    );
    assert_eq!(
        plan(&vec![OpCode::JumpForward(0), OpCode::JumpForward(0), OpCode::JumpBackward(0)], abi, 0),
        Err(CodegenError::UnclosedLoop(0))
    );
    assert_eq!(
        compile_to_native(&vec![OpCode::JumpBackward(0), OpCode::AlterValue(0)], Abi::SystemV, 0),
        Err(CodegenError::UnopenedLoop(0))
    );
}

#[test]
fn encode_refuses_unknown_labels() {
    let p = Plan { steps: vec![Emit::TestCell, Emit::JumpIfZero(3)], labels: 2 };
    assert_eq!(encode(&p), Err(CodegenError::UnknownLabel(3)));
    let p = Plan { steps: vec![Emit::Bind(0)], labels: 2 };
    assert_eq!(encode(&p), Err(CodegenError::UnknownLabel(0)));
}

#[test]
fn empty_program_is_prologue_and_epilogue() {
    let unix = compile_to_native(&vec![], Abi::SystemV, 0).unwrap();
    assert_eq!(unix, vec![0x53, 0x48, 0x89, 0xfb, 0x5b, 0x31, 0xc0, 0xc3]);
    let windows = compile_to_native(&vec![], Abi::Windows, 0).unwrap();
    assert_eq!(windows, vec![0x53, 0x48, 0x89, 0xcb, 0x5b, 0x31, 0xc0, 0xc3]);
}

#[test]
fn cell_arithmetic_is_byte_sized() {
    let code = vec![OpCode::AlterValue(1), OpCode::AlterValue(-1), OpCode::AlterValue(5), OpCode::SetZero];
    let bytes = compile_to_native(&code, Abi::SystemV, 0).unwrap();
    assert_eq!(
        bytes[4..bytes.len() - 4].to_vec(),
        vec![0xfe, 0x03, 0xfe, 0x0b, 0x80, 0x03, 0x05, 0xc6, 0x03, 0x00]
    );
}

#[test]
fn loops_assemble_to_a_pair_of_branches() {
    let code = compile(&"[.]".to_string()).unwrap();
    let bytes = compile_to_native(&code, Abi::SystemV, 0x1122_3344_5566_7788).unwrap();
    // cmp byte ptr [rbx], 0
    assert_eq!(bytes[4..7].to_vec(), vec![0x80, 0x3b, 0x00]);
    // je over the body
    assert_eq!(bytes[7], 0x74);
    // the address of the output routine is embedded as it was given
    let address = [0x88u8, 0x77, 0x66, 0x55, 0x44, 0x33, 0x22, 0x11];
    assert!(bytes.windows(8).any(|w| w == address));
    assert_eq!(bytes[bytes.len() - 1], 0xc3);
}

#[test]
fn hello_world_assembles() {
    let text = "++++++++[>++++[>++>+++>+++>+<<<<-]>+>+>->>+[<]<-]>>.>---.+++++++..+++.>>.<-.<.+++.------.--------.>>+.>++.";
    let code = compile(&text.to_string()).unwrap();
    let bytes = compile_to_native(&code, Abi::SystemV, 0x1000).unwrap();
    assert_eq!(bytes[0], 0x53);
    assert_eq!(bytes[bytes.len() - 1], 0xc3);
    assert!(bytes.len() > code.len());
}

#[test]
fn region_size_rounds_up_to_pages() {
    assert_eq!(PAGE_SIZE, 4096);
    assert_eq!(region_size(0), Some(0));
    assert_eq!(region_size(1), Some(4096));
    assert_eq!(region_size(4095), Some(4096));
    assert_eq!(region_size(4096), Some(4096));
    assert_eq!(region_size(4097), Some(8192));
    assert_eq!(region_size(usize::MAX - 4095), Some(usize::MAX - 4095));
    assert_eq!(region_size(usize::MAX - 4094), None);
    assert_eq!(region_size(usize::MAX), None);
}

#[test]
fn loader_allocates_copies_protects_then_enters() {
    let (l, a) = Loader::start(5000);
    assert_eq!(a, Action::Allocate(8192));
    assert_eq!(l, Loader { stage: Stage::Allocating, len: 5000, size: 8192 });
    let (l, a) = l.advance(true);
    assert_eq!(a, Action::Copy(5000));
    assert_eq!(l.stage, Stage::Copying);
    let (l, a) = l.advance(true);
    assert_eq!(a, Action::Protect(8192));
    assert_eq!(l.stage, Stage::Protecting);
    let (l, a) = l.advance(true);
    assert_eq!(a, Action::Enter);
    assert_eq!(l.stage, Stage::Ready);
    assert_eq!(l.advance(true), (l, Action::Enter));
}

#[test]
fn loader_stops_at_the_first_failure() {
    assert_eq!(Loader::start(0).1, Action::Abort);
    assert_eq!(Loader::start(usize::MAX).1, Action::Abort);
    assert_eq!(Loader::start(usize::MAX).0.stage, Stage::Failed);
    let (l, _) = Loader::start(10);
    let (l, a) = l.advance(false);
    assert_eq!(a, Action::Abort);
    assert_eq!(l.stage, Stage::Failed);
    assert_eq!(l.advance(true).1, Action::Abort);
    let (l, _) = Loader::start(10);
    let (l, _) = l.advance(true);
    let (l, _) = l.advance(true);
    let (l, a) = l.advance(false);
    assert_eq!(a, Action::Abort);
    assert_eq!(l.stage, Stage::Failed);
}

#[test]
fn encode_reports_what_the_assembler_refuses() {
    // a label with no instruction behind it
    let p = Plan { steps: vec![Emit::Return, Emit::Bind(1)], labels: 1 };
    assert!(matches!(encode(&p), Err(CodegenError::Encoding(_))));
    // two labels on one instruction
    let p = Plan { steps: vec![Emit::Bind(1), Emit::Bind(2), Emit::Return], labels: 2 };
    assert!(matches!(encode(&p), Err(CodegenError::Encoding(_))));
    // a label bound twice
    let p = Plan { steps: vec![Emit::Bind(1), Emit::Return, Emit::Bind(1), Emit::Return], labels: 1 };
    assert!(matches!(encode(&p), Err(CodegenError::Encoding(_))));
}

#[test]
fn encode_assembles_each_step() {
    let one = |step: Emit| encode(&Plan { steps: vec![step], labels: 0 }).unwrap();
    assert_eq!(one(Emit::SaveCursor), vec![0x53]);
    assert_eq!(one(Emit::RestoreCursor), vec![0x5b]);
    assert_eq!(one(Emit::IncCell), vec![0xfe, 0x03]);
    assert_eq!(one(Emit::DecCell), vec![0xfe, 0x0b]);
    assert_eq!(one(Emit::AddCell(5)), vec![0x80, 0x03, 0x05]);
    assert_eq!(one(Emit::SubCell(5)), vec![0x80, 0x2b, 0x05]);
    assert_eq!(one(Emit::IncCursor), vec![0x48, 0xff, 0xc3]);
    assert_eq!(one(Emit::DecCursor), vec![0x48, 0xff, 0xcb]);
    assert_eq!(one(Emit::AddCursor(5)), vec![0x48, 0x83, 0xc3, 0x05]);
    assert_eq!(one(Emit::SubCursor(5)), vec![0x48, 0x83, 0xeb, 0x05]);
    assert_eq!(one(Emit::TestCell), vec![0x80, 0x3b, 0x00]);
    assert_eq!(one(Emit::LoadCell), vec![0x8b, 0x03]);
    assert_eq!(one(Emit::LoadFactor(7)), vec![0xb8, 0x07, 0x00, 0x00, 0x00]);
    assert_eq!(one(Emit::MulCell), vec![0xf6, 0x23]);
    assert_eq!(one(Emit::AddLowByteAt(2)), vec![0x00, 0x43, 0x02]);
    assert_eq!(one(Emit::AddLowByteAt(-1)), vec![0x00, 0x43, 0xff]);
    assert_eq!(one(Emit::ClearCell), vec![0xc6, 0x03, 0x00]);
    assert_eq!(one(Emit::PassCell(Abi::SystemV)), vec![0x0f, 0xb6, 0x3b]);
    assert_eq!(one(Emit::PassCell(Abi::Windows)), vec![0x0f, 0xb6, 0x0b]);
    assert_eq!(
        one(Emit::LoadAddress(0x1122_3344_5566_7788)),
        vec![0x48, 0xb8, 0x88, 0x77, 0x66, 0x55, 0x44, 0x33, 0x22, 0x11]
    );
    assert_eq!(one(Emit::CallAddress), vec![0xff, 0xd0]);
    assert_eq!(one(Emit::ClearStatus), vec![0x31, 0xc0]);
    assert_eq!(one(Emit::Return), vec![0xc3]);
}

#[test]
fn encode_resolves_jumps_to_their_labels() {
    let p = Plan {
        steps: vec![
            Emit::TestCell,
            Emit::JumpIfZero(2),
            Emit::Bind(1),
            Emit::DecCell,
            Emit::TestCell,
            Emit::JumpIfNotZero(1),
            Emit::Bind(2),
            Emit::Return,
        ],
        labels: 2,
    };
    assert_eq!(
        encode(&p),
        Ok(vec![0x80, 0x3b, 0x00, 0x74, 0x07, 0xfe, 0x0b, 0x80, 0x3b, 0x00, 0x75, 0xf9, 0xc3])
    );
}

#[test]
fn wide_cell_deltas_are_taken_modulo_256() {
    let steps = |v: i16| plan(&vec![OpCode::AlterValue(v)], Abi::SystemV, 0).unwrap().steps;
    assert_eq!(steps(300)[2], Emit::AddCell(44));
    assert_eq!(steps(-300)[2], Emit::SubCell(44));
    assert_eq!(steps(255)[2], Emit::AddCell(255));
    assert_eq!(steps(-32768).len(), 5);
    assert_eq!(steps(256), steps(512));
    assert_eq!(steps(256).len(), 5);
    assert_eq!(steps(257)[2], Emit::AddCell(1));
    let bytes = compile_to_native(&vec![OpCode::AlterValue(300)], Abi::SystemV, 0).unwrap();
    assert_eq!(bytes[4..7].to_vec(), vec![0x80, 0x03, 0x2c]);
    let bytes = compile_to_native(&vec![OpCode::AlterValue(-300)], Abi::SystemV, 0).unwrap();
    assert_eq!(bytes[4..7].to_vec(), vec![0x80, 0x2b, 0x2c]);
    let bytes = compile_to_native(&vec![OpCode::AlterValue(200)], Abi::SystemV, 0).unwrap();
    assert_eq!(bytes[4..7].to_vec(), vec![0x80, 0x03, 0xc8]);
    assert_eq!(
        compile_to_native(&vec![OpCode::AlterValue(256)], Abi::SystemV, 0),
        compile_to_native(&vec![], Abi::SystemV, 0)
    );
    assert!(compile_to_native(&vec![OpCode::AlterPointer(30000)], Abi::SystemV, 0).is_ok());
}

#[test]
fn long_runs_of_increments_assemble() {
    let text = format!("{}.", "+".repeat(300));
    let code = compile(&text).unwrap();
    assert_eq!(code, vec![OpCode::AlterValue(300), OpCode::PutChar]);
    assert!(compile_to_native(&code, Abi::SystemV, 0x1000).is_ok());
}

#[test]
fn nops_leave_the_machine_code_as_it_is() {
    let with = compile(&"+++[-]>[->+<]<.".to_string()).unwrap();
    let without: Vec<OpCode> = with.iter().copied().filter(|op| *op != OpCode::Nop).collect();
    assert!(without.len() < with.len());
    let a = compile_to_native(&with, Abi::SystemV, 0x1000);
    let b = compile_to_native(&without, Abi::SystemV, 0x1000);
    assert!(a.is_ok());
    assert_eq!(a, b);
}

#[test]
fn every_label_is_bound_once() {
    let p = Plan { steps: vec![Emit::Bind(1), Emit::Return, Emit::Bind(1), Emit::Return], labels: 1 };
    assert!(matches!(encode(&p), Err(CodegenError::Encoding(_))));
    let p = Plan { steps: vec![Emit::Bind(1), Emit::Return, Emit::Bind(2), Emit::Return], labels: 2 };
    assert_eq!(encode(&p), Ok(vec![0xc3, 0xc3]));
}
