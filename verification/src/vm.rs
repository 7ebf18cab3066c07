//! The interpreter: the meaning of each instruction as a step on a byte tape,
//! and bounded runs of whole programs.

use vstd::prelude::*;
use crate::opcode::OpCode;

verus! {

/// The number of cells of a fresh tape.
pub const TAPE_SIZE: usize = 512;

/// The state of a run as mathematical values.
pub struct State {
    /// The cells.
    pub tape: Seq<u8>,
    /// The cursor, an index into the tape.
    pub pointer: int,
    /// The index of the instruction to execute next.
    pub index: int,
    /// The characters emitted so far, oldest first.
    pub output: Seq<u8>,
    /// The number of instructions executed so far.
    pub ops: nat,
}

/// How a run ended.
#[derive(Debug, Clone, Copy, PartialEq, Eq, Structural)]
pub enum Status {
    /// The instruction index reached the end of the sequence.
    Halted,
    /// The step budget was used up before the program ended.
    OutOfSteps,
    /// The next instruction would move the cursor, or reach a cell, outside
    /// the tape; the state is the one before that instruction.
    OutOfTape,
}

/// The interpreter's state.
#[derive(Debug, Clone)]
pub struct Machine {
    /// The cells.
    pub tape: Vec<u8>,
    /// The cursor, an index into the tape.
    pub pointer: usize,
    /// The index of the instruction to execute next.
    pub index: usize,
    /// The characters emitted so far, oldest first.
    pub output: Vec<u8>,
    /// The number of instructions executed so far.
    pub ops: u64,
}

impl View for Machine {
    type V = State;

    open spec fn view(&self) -> State {
        State {
            tape: self.tape@,
            pointer: self.pointer as int,
            index: self.index as int,
            output: self.output@,
            ops: self.ops as nat,
        }
    }
}

/// A cell after a signed amount is added to it, modulo 256.
pub open spec fn wrap_add(cell: u8, amount: int) -> u8 {
    ((cell as int + amount) % 256) as u8
}

/// The state before the first instruction: `size` zeroed cells, the cursor on
/// the first, nothing emitted.
pub open spec fn initial_state(size: nat) -> State {
    State {
        tape: Seq::new(size, |i: int| 0u8),
        pointer: 0,
        index: 0,
        output: Seq::empty(),
        ops: 0,
    }
}

/// Whether the cursor is on the tape.
pub open spec fn on_tape(s: State) -> bool {
    0 <= s.pointer < s.tape.len()
}

/// The state after the instruction at `s.index`, or `None` where that
/// instruction would leave the tape. A taken jump continues at the stored
/// index itself. `AddMul` on a current cell of zero adds nothing and reaches
/// no other cell, whatever its offset.
pub open spec fn step_spec(code: Seq<OpCode>, s: State) -> Option<State>
    recommends
        0 <= s.index < code.len(),
        on_tape(s),
{
    let cell = s.tape[s.pointer];
    let next = State { index: s.index + 1, ops: s.ops + 1, ..s };
    match code[s.index] {
        OpCode::AlterValue(v) => Some(
            State { tape: s.tape.update(s.pointer, wrap_add(cell, v as int)), ..next },
        ),
        OpCode::AlterPointer(v) => if 0 <= s.pointer + v < s.tape.len() {
            Some(State { pointer: s.pointer + v, ..next })
        } else {
            None
        },
        OpCode::JumpForward(to) => if cell == 0 {
            Some(State { index: to as int, ..next })
        } else {
            Some(next)
        },
        OpCode::JumpBackward(to) => if cell != 0 {
            Some(State { index: to as int, ..next })
        } else {
            Some(next)
        },
        OpCode::AddMul(offset, factor) => if cell == 0 {
            Some(next)
        } else if 0 <= s.pointer + offset < s.tape.len() {
            Some(
                State {
                    tape: s.tape.update(
                        s.pointer + offset,
                        wrap_add(s.tape[s.pointer + offset], factor * cell),
                    ),
                    ..next
                },
            )
        } else {
            None
        },
        OpCode::SetZero => Some(State { tape: s.tape.update(s.pointer, 0u8), ..next }),
        OpCode::Nop => Some(next),
        OpCode::PutChar => Some(State { output: s.output.push(cell), ..next }),
    }
}

/// The state in which a run of at most `budget` further instructions ends, and
/// how it ends.
pub open spec fn run_spec(code: Seq<OpCode>, s: State, budget: nat) -> (State, Status)
    decreases budget,
{
    if s.index < 0 || s.index >= code.len() {
        (s, Status::Halted)
    } else if budget == 0 {
        (s, Status::OutOfSteps)
    } else {
        match step_spec(code, s) {
            None => (s, Status::OutOfTape),
            Some(next) => run_spec(code, next, (budget - 1) as nat),
        }
    }
}

impl Machine {
    /// A machine before its first instruction, with a zeroed tape of the given
    /// size.
    pub fn new(size: usize) -> (m: Machine)
        ensures
            m@ == initial_state(size as nat),
    {
        let mut tape: Vec<u8> = Vec::new();
        let mut i: usize = 0;
        while i < size
            invariant
                i <= size,
                tape@ =~= Seq::new(i as nat, |k: int| 0u8),
            decreases size - i,
        {
            tape.push(0u8);
            i += 1;
        }
        Machine { tape, pointer: 0, index: 0, output: Vec::new(), ops: 0 }
    }

    /// Executes the instruction at the machine's index. Returns false, and
    /// leaves the machine as it is, where that instruction would leave the
    /// tape.
    pub fn step(&mut self, code: &Vec<OpCode>) -> (done: bool)
        requires
            old(self).index < code@.len(),
            old(self).pointer < old(self).tape@.len(),
            old(self).ops < u64::MAX,
        ensures
            match step_spec(code@, old(self)@) {
                Some(next) => done && final(self)@ == next,
                None => !done && *final(self) == *old(self),
            },
            done ==> final(self).pointer < final(self).tape@.len(),
            final(self).tape@.len() == old(self).tape@.len(),
    {
        let cell: u8 = self.tape[self.pointer];
        let size: usize = self.tape.len();
        let length: usize = code.len();
        let mut target: usize = self.index + 1;
        match code[self.index] {
            OpCode::AlterValue(v) => {
                let sum: u32 = (cell as i32 + v as i32 + 32768) as u32;
                assert((cell as int + v as int + 256 * 128) % 256 == (cell as int + v as int)
                    % 256) by (nonlinear_arith);
                self.tape.set(self.pointer, (sum % 256) as u8);
            },
            OpCode::AlterPointer(v) => {
                let moved: i128 = self.pointer as i128 + v as i128;
                if moved < 0 || moved >= size as i128 {
                    return false;
                }
                self.pointer = moved as usize;
            },
            OpCode::JumpForward(to) => {
                if cell == 0 {
                    target = to;
                }
            },
            OpCode::JumpBackward(to) => {
                if cell != 0 {
                    target = to;
                }
            },
            OpCode::AddMul(offset, factor) => {
                if cell != 0 {
                    let at: i128 = self.pointer as i128 + offset as i128;
                    if at < 0 || at >= size as i128 {
                        return false;
                    }
                    let dest: usize = at as usize;
                    assert(0 <= factor as int * cell as int <= 255 * 255) by (nonlinear_arith)
                        requires
                            0 <= factor as int <= 255,
                            0 <= cell as int <= 255,
                    ;
                    let sum: u32 = self.tape[dest] as u32 + factor as u32 * cell as u32;
                    self.tape.set(dest, (sum % 256) as u8);
                }
            },
            OpCode::SetZero => {
                self.tape.set(self.pointer, 0u8);
            },
            OpCode::Nop => {},
            OpCode::PutChar => {
                self.output.push(cell);
            },
        }
        self.index = target;
        self.ops = self.ops + 1;
        true
    }
}

/// Runs a program on a fresh tape of `TAPE_SIZE` cells, for at most `budget`
/// instructions. Returns the machine as the run left it, with the characters
/// emitted and the number of instructions executed, and how the run ended.
pub fn execute(code: &Vec<OpCode>, budget: u64) -> (r: (Machine, Status))
    ensures
        (r.0@, r.1) == run_spec(code@, initial_state(TAPE_SIZE as nat), budget as nat),
{
    let mut m = Machine::new(TAPE_SIZE);
    let ghost start = m@;
    while m.index < code.len() && m.ops < budget
        invariant
            m.pointer < m.tape@.len(),
            m.ops <= budget,
            run_spec(code@, initial_state(TAPE_SIZE as nat), budget as nat) == run_spec(
                code@,
                m@,
                (budget - m.ops) as nat,
            ),
        decreases budget - m.ops,
    {
        if !m.step(code) {
            return (m, Status::OutOfTape);
        }
    }
    if m.index >= code.len() {
        (m, Status::Halted)
    } else {
        (m, Status::OutOfSteps)
    }
}

} // verus!
