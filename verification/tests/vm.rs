use bf_jit::compiler::compile;
use bf_jit::filter::minify;
use bf_jit::lower::lower;
use bf_jit::opcode::OpCode;
use bf_jit::vm::{execute, Machine, Status, TAPE_SIZE};

fn run(text: &str) -> (Machine, Status) {
    let code = compile(&text.to_string()).unwrap();
    execute(&code, 1_000_000)
}

#[test]
fn fresh_machine_is_zeroed() {
    let m = Machine::new(TAPE_SIZE);
    assert_eq!(m.tape, vec![0u8; 512]);
    assert_eq!(m.pointer, 0);
    assert_eq!(m.index, 0);
    assert_eq!(m.ops, 0);
    assert!(m.output.is_empty());
}

#[test]
fn empty_program_halts_at_once() {
    let (m, status) = run("");
    assert_eq!(status, Status::Halted);
    assert_eq!(m.ops, 0);
    assert_eq!(m.tape, vec![0u8; 512]);
}

#[test]
fn clear_cell_leaves_zero() {
    let (m, status) = run("+++[-]");
    assert_eq!(status, Status::Halted);
    assert_eq!(m.tape[0], 0);
    assert_eq!(m.ops, 4);
}

#[test]
fn copy_add_adds_into_the_first_cell() {
    let (m, status) = run("++>+++[-<+>]");
    assert_eq!(status, Status::Halted);
    assert_eq!(m.tape[0], 5);
    assert_eq!(m.tape[1], 0);
    assert_eq!(m.pointer, 1);
}

#[test]
fn multiply_add_scales_the_source() {
    let (m, status) = run("+++++>++<[>+++<-]");
    assert_eq!(status, Status::Halted);
    assert_eq!(m.tape[0], 0);
    assert_eq!(m.tape[1], 2 + 5 * 3);
}

#[test]
fn rewritten_and_plain_loops_agree() {
    for text in [
        "+++[-]",
        "++>+++[-<+>]",
        "+++++>++<[>+++<-]",
        "+++[>-<-]",
        "[-]",
        "[->+<]",
        "[-<+>]",
        "[-<+>]+.",
        "[<+>-]",
        ">[-]<[->>+<<]+.",
    ] {
        let plain = lower(&minify(text)).unwrap();
        let fast = compile(&text.to_string()).unwrap();
        assert_ne!(plain, fast);
        let (a, sa) = execute(&plain, 1_000_000);
        let (b, sb) = execute(&fast, 1_000_000);
        assert_eq!(sa, Status::Halted);
        assert_eq!(sb, Status::Halted);
        assert_eq!(a.tape, b.tape);
        assert_eq!(a.pointer, b.pointer);
        assert_eq!(a.output, b.output);
        assert_eq!(a.index, b.index);
    }
}

#[test]
fn cells_wrap_modulo_256() {
    let (m, _) = run("-");
    assert_eq!(m.tape[0], 255);
    let code = vec![OpCode::AlterValue(300), OpCode::AlterPointer(1), OpCode::AlterValue(-513)];
    let (m, status) = execute(&code, 10);
    assert_eq!(status, Status::Halted);
    assert_eq!(m.tape[0], 44);
    assert_eq!(m.tape[1], 255);
}

#[test]
fn add_mul_wraps_and_reads_the_source_first() {
    let code = vec![OpCode::AlterValue(100), OpCode::AddMul(1, 3), OpCode::AddMul(0, 2)];
    let (m, status) = execute(&code, 10);
    assert_eq!(status, Status::Halted);
    assert_eq!(m.tape[1], 44);
    assert_eq!(m.tape[0], 44);
}

#[test]
fn taken_jumps_continue_at_the_stored_index() {
    let code = vec![OpCode::JumpForward(2), OpCode::PutChar, OpCode::JumpBackward(0)];
    let (m, status) = execute(&code, 10);
    assert_eq!(status, Status::Halted);
    assert_eq!(m.ops, 2);
    assert!(m.output.is_empty());
    assert_eq!(m.index, 3);
}

#[test]
fn put_char_emits_the_cell() {
    let (m, _) = run("++++++++[>++++++++<-]>+.+.");
    assert_eq!(m.output, vec![65u8, 66u8]);
}

#[test]
fn hello_world_prints_its_text() {
    let text = "++++++++[>++++[>++>+++>+++>+<<<<-]>+>+>->>+[<]<-]>>.>---.+++++++..+++.>>.<-.<.+++.------.--------.>>+.>++.";
    let (m, status) = run(text);
    assert_eq!(status, Status::Halted);
    assert_eq!(m.output, b"Hello World!\n".to_vec());
}

#[test]
fn leaving_the_tape_stops_the_run() {
    let (m, status) = run("+<");
    assert_eq!(status, Status::OutOfTape);
    assert_eq!(m.ops, 1);
    assert_eq!(m.index, 1);
    assert_eq!(m.pointer, 0);
    let code = vec![OpCode::AlterPointer(511), OpCode::AlterPointer(1)];
    let (m, status) = execute(&code, 10);
    assert_eq!(status, Status::OutOfTape);
    assert_eq!(m.pointer, 511);
    let code = vec![OpCode::AlterValue(1), OpCode::AddMul(-1, 1)];
    let (m, status) = execute(&code, 10);
    assert_eq!(status, Status::OutOfTape);
    assert_eq!(m.ops, 1);
    assert_eq!(m.tape[0], 1);
}

#[test]
fn endless_loop_stops_at_the_budget() {
    let (m, status) = {
        let code = compile(&"+[]".to_string()).unwrap();
        execute(&code, 101)
    };
    assert_eq!(status, Status::OutOfSteps);
    assert_eq!(m.ops, 101);
    assert_eq!(m.tape[0], 1);
}

#[test]
fn step_executes_one_instruction() {
    let code = vec![OpCode::AlterValue(7), OpCode::PutChar];
    let mut m = Machine::new(4);
    assert!(m.step(&code));
    assert_eq!(m.tape, vec![7, 0, 0, 0]);
    assert_eq!(m.index, 1);
    assert!(m.step(&code));
    assert_eq!(m.output, vec![7]);
    assert_eq!(m.ops, 2);
    let back = vec![OpCode::AlterPointer(-1)];
    let mut m = Machine::new(4);
    assert!(!m.step(&back));
    assert_eq!(m.index, 0);
    assert_eq!(m.ops, 0);
}

#[test]
fn add_mul_on_a_zero_cell_reaches_no_other_cell() {
    let code = compile(&"[-<+>]".to_string()).unwrap();
    assert_eq!(code[0], OpCode::AddMul(-1, 1));
    let (m, status) = execute(&code, 100);
    assert_eq!(status, Status::Halted);
    assert_eq!(m.tape, vec![0u8; 512]);
    assert_eq!(m.pointer, 0);
    assert!(m.output.is_empty());
    assert_eq!(m.ops, 6);
    let code = vec![OpCode::AddMul(-1, 7), OpCode::AddMul(512, 7), OpCode::AddMul(i16::MIN, 1)];
    let (m, status) = execute(&code, 100);
    assert_eq!(status, Status::Halted);
    assert_eq!(m.tape, vec![0u8; 512]);
    let (m, status) = run("[-<+>]+.");
    assert_eq!(status, Status::Halted);
    assert_eq!(m.output, vec![1u8]);
}
