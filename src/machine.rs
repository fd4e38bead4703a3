//! The reference semantics of the instruction set, one instruction at a time.

use vstd::prelude::*;
use crate::opcode::{BACK7_BYTE, CLRA_BYTE, DECA_BYTE, HALT_BYTE, INC3A_BYTE, SETL_BYTE};

verus! {

/// What a run can observe: the registers and whether HALT was reached.
pub ghost struct MachineState {
    pub ip: int,
    pub acc: i32,
    pub lc: i32,
    pub halted: bool,
}

/// `a + d` wrapped into 32 bits, for the small steps the machine takes.
pub open spec fn wrapping(a: i32, d: int) -> i32 {
    let x = a as int + d;
    if x > i32::MAX {
        (x - 0x1_0000_0000) as i32
    } else if x < i32::MIN {
        (x + 0x1_0000_0000) as i32
    } else {
        x as i32
    }
}

/// One instruction of the interpreter on a state that has not halted.
pub open spec fn step(code: Seq<u8>, s: MachineState) -> MachineState {
    if s.halted || s.ip < 0 || s.ip >= code.len() {
        s
    } else {
        let b = code[s.ip];
        if b == HALT_BYTE {
            MachineState { halted: true, ..s }
        } else if b == CLRA_BYTE {
            MachineState { ip: s.ip + 1, acc: 0, ..s }
        } else if b == INC3A_BYTE {
            MachineState { ip: s.ip + 1, acc: wrapping(s.acc, 3), ..s }
        } else if b == DECA_BYTE {
            MachineState { ip: s.ip + 1, acc: wrapping(s.acc, -1), ..s }
        } else if b == SETL_BYTE {
            MachineState { ip: s.ip + 1, lc: s.acc, ..s }
        } else if b == BACK7_BYTE {
            let lc = wrapping(s.lc, -1);
            if lc > 0 {
                MachineState { ip: s.ip - 6, lc, ..s }
            } else {
                MachineState { ip: s.ip + 1, lc, ..s }
            }
        } else {
            s
        }
    }
}

/// At most `fuel` instructions; a halted state stays as it is.
pub open spec fn run(code: Seq<u8>, s: MachineState, fuel: nat) -> MachineState
    decreases fuel,
{
    if fuel == 0 || s.halted {
        s
    } else {
        run(code, step(code, s), (fuel - 1) as nat)
    }
}

/// The state a program starts in.
pub open spec fn initial_state(acc: i32, lc: i32) -> MachineState {
    MachineState { ip: 0, acc, lc, halted: false }
}

/// Started with `acc` and `lc`, the interpreter halts with `acc2` and `lc2`.
pub open spec fn halts_with(code: Seq<u8>, acc: i32, lc: i32, acc2: i32, lc2: i32) -> bool {
    exists|fuel: nat| {
        let s = #[trigger] run(code, initial_state(acc, lc), fuel);
        s.halted && s.acc == acc2 && s.lc == lc2
    }
}

/// `a + 3` wrapped into 32 bits.
pub fn add_three(a: i32) -> (r: i32)
    ensures
        r == wrapping(a, 3),
{
    if a > i32::MAX - 3 {
        (a - i32::MAX + 2) + i32::MIN
    } else {
        a + 3
    }
}

/// `a - 1` wrapped into 32 bits.
pub fn sub_one(a: i32) -> (r: i32)
    ensures
        r == wrapping(a, -1),
{
    if a == i32::MIN {
        i32::MAX
    } else {
        a - 1
    }
}

/// Adding three to the largest accumulator wraps around to the negative end.
pub proof fn lemma_inc3a_wraps(code: Seq<u8>, s: MachineState)
    requires
        !s.halted,
        0 <= s.ip < code.len(),
        code[s.ip] == INC3A_BYTE,
        s.acc == i32::MAX,
    ensures
        step(code, s).acc == -2147483646i32,
        step(code, s).lc == s.lc,
        !step(code, s).halted,
{
}

} // verus!
