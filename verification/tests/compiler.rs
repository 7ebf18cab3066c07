use bf_jit::compiler::{compile, CompileError};
use bf_jit::filter::{minify, symbol};
use bf_jit::lower::lower;
use bf_jit::optimizer::{multiplier, optimize};
use bf_jit::opcode::OpCode;

fn chars(s: &str) -> Vec<char> {
    s.chars().collect()
}

fn compiled(s: &str) -> Vec<OpCode> {
    compile(&s.to_string()).unwrap()
}

#[test]
fn minify_keeps_the_eight_symbols() {
    assert_eq!(minify("a+b-c>d<e[f]g.h,i\n"), chars("+-><[].,"));
    assert_eq!(minify(""), chars(""));
    assert_eq!(minify("hello world\u{e9}\u{4e16}"), chars(""));
}

#[test]
fn minify_twice_is_minify_once() {
    let once = minify("x+ [->+<] y. ,z");
    let text: String = once.iter().collect();
    assert_eq!(minify(&text), once);
    assert_eq!(text, "+[->+<].,");
}

#[test]
fn symbol_recognises_exactly_eight() {
    let mut n = 0;
    for b in 0u8..=127 {
        if symbol(b as char) {
            n += 1;
        }
    }
    assert_eq!(n, 8);
    assert!(!symbol('a'));
    assert!(symbol(','));
}

#[test]
fn runs_collapse() {
    assert_eq!(compiled("+++"), vec![OpCode::AlterValue(3)]);
    assert_eq!(compiled("+-+--"), vec![OpCode::AlterValue(-1)]);
    assert_eq!(compiled(">><"), vec![OpCode::AlterPointer(1)]);
    assert_eq!(compiled("+>"), vec![OpCode::AlterValue(1), OpCode::AlterPointer(1)]);
}

#[test]
fn zero_runs_emit_nothing() {
    assert_eq!(compiled("+-"), vec![]);
    assert_eq!(compiled("><.<>"), vec![OpCode::PutChar]);
    assert_eq!(
        compiled("[+-]"),
        vec![OpCode::JumpForward(1), OpCode::JumpBackward(0)]
    );
}

#[test]
fn input_symbol_lowers_to_nothing() {
    assert_eq!(compiled(","), vec![]);
    assert_eq!(
        compiled("[,]"),
        vec![OpCode::JumpForward(1), OpCode::JumpBackward(0)]
    );
    assert_eq!(
        compiled("+,+"),
        vec![OpCode::AlterValue(1), OpCode::AlterValue(1)]
    );
}

#[test]
fn jumps_store_each_other() {
    let code = lower(&chars("[.[.].]")).unwrap();
    assert_eq!(
        code,
        vec![
            OpCode::JumpForward(6),
            OpCode::PutChar,
            OpCode::JumpForward(4),
            OpCode::PutChar,
            OpCode::JumpBackward(2),
            OpCode::PutChar,
            OpCode::JumpBackward(0),
        ]
    );
}

#[test]
fn clear_cell_is_rewritten() {
    assert_eq!(
        compiled("+++[-]"),
        vec![OpCode::AlterValue(3), OpCode::SetZero, OpCode::Nop, OpCode::Nop]
    );
}

#[test]
fn move_with_decrement_first_is_rewritten() {
    assert_eq!(
        compiled("++>+++[-<+>]"),
        vec![
            OpCode::AlterValue(2),
            OpCode::AlterPointer(1),
            OpCode::AlterValue(3),
            OpCode::AddMul(-1, 1),
            OpCode::SetZero,
            OpCode::Nop,
            OpCode::Nop,
            OpCode::Nop,
            OpCode::Nop,
        ]
    );
}

#[test]
fn move_with_decrement_first_needs_a_single_increment() {
    let code = compiled("[->++<]");
    assert_eq!(code[0], OpCode::JumpForward(5));
    assert_eq!(code[5], OpCode::JumpBackward(0));
    assert_eq!(code.len(), 6);
}

#[test]
fn move_with_decrement_last_is_rewritten() {
    assert_eq!(
        compiled("[>>+++<<-]"),
        vec![
            OpCode::AddMul(2, 3),
            OpCode::SetZero,
            OpCode::Nop,
            OpCode::Nop,
            OpCode::Nop,
            OpCode::Nop,
        ]
    );
}

#[test]
fn negative_factor_is_taken_modulo_256() {
    assert_eq!(compiled("[>-<-]")[0], OpCode::AddMul(1, 255));
    assert_eq!(multiplier(-1), 255);
    assert_eq!(multiplier(3), 3);
    assert_eq!(multiplier(256), 0);
    assert_eq!(multiplier(-256), 0);
    assert_eq!(multiplier(i16::MIN), 0);
    assert_eq!(multiplier(i16::MAX), 255);
}

#[test]
fn other_loops_are_left_alone() {
    let code = compiled("[-<+>-]");
    assert_eq!(code[0], OpCode::JumpForward(6));
    assert_eq!(code[6], OpCode::JumpBackward(0));
    let code = compiled("[+]");
    assert_eq!(
        code,
        vec![OpCode::JumpForward(2), OpCode::AlterValue(1), OpCode::JumpBackward(0)]
    );
}

#[test]
fn optimize_keeps_length_and_targets() {
    let lowered = lower(&chars("+[[-]>[->+<]<[>+<-].]")).unwrap();
    let n = lowered.len();
    let done = optimize(lowered.clone());
    assert_eq!(done.len(), n);
    for (i, op) in done.iter().enumerate() {
        match op {
            OpCode::JumpForward(t) | OpCode::JumpBackward(t) => {
                assert!(*t < n);
                assert_eq!(*op, lowered[i]);
            }
            _ => {}
        }
    }
    assert_eq!(done[1], OpCode::JumpForward(n - 1));
    assert_eq!(done[2], OpCode::SetZero);
}

#[test]
fn unmatched_open_is_rejected() {
    assert_eq!(compile(&"[+".to_string()), Err(CompileError::UnmatchedOpen(0)));
    assert_eq!(compile(&"+[.[".to_string()), Err(CompileError::UnmatchedOpen(3)));
}

#[test]
fn unmatched_close_is_rejected() {
    assert_eq!(compile(&"]".to_string()), Err(CompileError::UnmatchedClose(0)));
    assert_eq!(compile(&"a[]b]".to_string()), Err(CompileError::UnmatchedClose(2)));
    assert_eq!(compile(&"][".to_string()), Err(CompileError::UnmatchedClose(0)));
}

#[test]
fn accepted_programs_have_balanced_brackets() {
    for text in ["", "[]", "[[][]]", "+[>[-]<-]", "[", "]", "[]]", "[[]", "]["] {
        let tokens = minify(text);
        let opens = tokens.iter().filter(|c| **c == '[').count();
        let closes = tokens.iter().filter(|c| **c == ']').count();
        let result = lower(&tokens);
        if result.is_ok() {
            assert_eq!(opens, closes);
        }
        if opens != closes {
            assert!(result.is_err());
        }
    }
}

#[test]
fn long_runs_are_rejected_when_they_do_not_fit() {
    let text = "+".repeat(32768);
    assert_eq!(compile(&text), Err(CompileError::DeltaOutOfRange(0)));
    let text = format!(".{}", "<".repeat(32769));
    assert_eq!(compile(&text), Err(CompileError::DeltaOutOfRange(1)));
    let text = "+".repeat(32767);
    assert_eq!(compile(&text), Ok(vec![OpCode::AlterValue(32767)]));
    let text = "-".repeat(32768);
    assert_eq!(compile(&text), Ok(vec![OpCode::AlterValue(-32768)]));
    let text = format!("{}{}", "+".repeat(40000), "-".repeat(39999));
    assert_eq!(compile(&text), Ok(vec![OpCode::AlterValue(1)]));
}

#[test]
fn length_counts_runs_and_symbols() {
    // three runs with a net delta, one without, and three other symbols that
    // lower to an instruction; the input symbol lowers to none
    assert_eq!(compiled("++-[>+-<<].,").len(), 6);
    assert_eq!(compiled("+-+-").len(), 0);
    assert_eq!(compiled("[-]").len(), 3);
    assert_eq!(compiled("a[b>c+d<e-f]g").len(), 6);
}

#[test]
fn the_first_unmatched_side_is_reported() {
    assert_eq!(compile(&"[]][".to_string()), Err(CompileError::UnmatchedClose(2)));
    assert_eq!(compile(&"[[]".to_string()), Err(CompileError::UnmatchedOpen(0)));
    assert_eq!(compile(&"[][".to_string()), Err(CompileError::UnmatchedOpen(2)));
    assert!(compile(&"[[][]]".to_string()).is_ok());
}
