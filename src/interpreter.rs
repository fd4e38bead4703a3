//! The direct interpreter: fetch, dispatch, mutate, until HALT.

use vstd::prelude::*;
use crate::machine::{add_three, run, step, sub_one};
use crate::opcode::{BACK7_BYTE, CLRA_BYTE, DECA_BYTE, HALT_BYTE, INC3A_BYTE, SETL_BYTE};
use crate::program::{well_formed_code, LOOP_SPAN};
use crate::vm::VM;

verus! {

/// Most instructions one interpreted run executes before it gives up.
pub const STEP_LIMIT: u64 = 0xFFFF_FFFF_FFFF_FFFF;

/// A backend that executes a VM's program on the VM's registers.
pub trait Interpreter {
    /// Runs until HALT, or for `STEP_LIMIT` instructions.
    fn run(&self, vm: &mut VM)
        requires
            old(vm).ready(),
        ensures
            final(vm).ready(),
            final(vm).running_program == old(vm).running_program,
            final(vm).mode == old(vm).mode,
            final(vm).state() == run(old(vm).code(), old(vm).state(), STEP_LIMIT as nat),
    ;

    fn halt(&self, vm: &mut VM)
        requires
            old(vm).ready(),
            !old(vm).halt,
            old(vm).code()[old(vm).registers.ip as int] == HALT_BYTE,
        ensures
            final(vm).ready(),
            final(vm).running_program == old(vm).running_program,
            final(vm).mode == old(vm).mode,
            final(vm).state() == step(old(vm).code(), old(vm).state()),
    ;

    fn clra(&self, vm: &mut VM)
        requires
            old(vm).ready(),
            !old(vm).halt,
            old(vm).code()[old(vm).registers.ip as int] == CLRA_BYTE,
        ensures
            final(vm).ready(),
            final(vm).running_program == old(vm).running_program,
            final(vm).mode == old(vm).mode,
            final(vm).state() == step(old(vm).code(), old(vm).state()),
    ;

    fn inc3a(&self, vm: &mut VM)
        requires
            old(vm).ready(),
            !old(vm).halt,
            old(vm).code()[old(vm).registers.ip as int] == INC3A_BYTE,
        ensures
            final(vm).ready(),
            final(vm).running_program == old(vm).running_program,
            final(vm).mode == old(vm).mode,
            final(vm).state() == step(old(vm).code(), old(vm).state()),
    ;

    fn deca(&self, vm: &mut VM)
        requires
            old(vm).ready(),
            !old(vm).halt,
            old(vm).code()[old(vm).registers.ip as int] == DECA_BYTE,
        ensures
            final(vm).ready(),
            final(vm).running_program == old(vm).running_program,
            final(vm).mode == old(vm).mode,
            final(vm).state() == step(old(vm).code(), old(vm).state()),
    ;

    fn setl(&self, vm: &mut VM)
        requires
            old(vm).ready(),
            !old(vm).halt,
            old(vm).code()[old(vm).registers.ip as int] == SETL_BYTE,
        ensures
            final(vm).ready(),
            final(vm).running_program == old(vm).running_program,
            final(vm).mode == old(vm).mode,
            final(vm).state() == step(old(vm).code(), old(vm).state()),
    ;

    fn back7(&self, vm: &mut VM)
        requires
            old(vm).ready(),
            !old(vm).halt,
            old(vm).code()[old(vm).registers.ip as int] == BACK7_BYTE,
        ensures
            final(vm).ready(),
            final(vm).running_program == old(vm).running_program,
            final(vm).mode == old(vm).mode,
            final(vm).state() == step(old(vm).code(), old(vm).state()),
    ;
}

/// The interpreter backend; it serves as the oracle for the native one.
pub struct SimpleInterpreter;

impl SimpleInterpreter {
    /// Executes at most `limit` instructions, stopping early at HALT.
    pub fn run_steps(&self, vm: &mut VM, limit: u64)
        requires
            old(vm).ready(),
        ensures
            final(vm).ready(),
            final(vm).running_program == old(vm).running_program,
            final(vm).mode == old(vm).mode,
            final(vm).state() == run(old(vm).code(), old(vm).state(), limit as nat),
    {
        let ghost code = vm.code();
        let ghost start = vm.state();
        let mut done: u64 = 0;
        while done < limit && !vm.halt
            invariant
                vm.ready(),
                vm.code() == code,
                vm.running_program == old(vm).running_program,
                vm.mode == old(vm).mode,
                done <= limit,
                run(code, start, limit as nat) == run(code, vm.state(), (limit - done) as nat),
            decreases limit - done,
        {
            let ip = vm.registers.ip as usize;
            let b = vm.running_program.data[ip];
            if b == HALT_BYTE {
                self.halt(vm);
            } else if b == CLRA_BYTE {
                self.clra(vm);
            } else if b == INC3A_BYTE {
                self.inc3a(vm);
            } else if b == DECA_BYTE {
                self.deca(vm);
            } else if b == SETL_BYTE {
                self.setl(vm);
            } else {
                self.back7(vm);
            }
            done = done + 1;
        }
    }
}

impl Interpreter for SimpleInterpreter {
    fn run(&self, vm: &mut VM) {
        self.run_steps(vm, STEP_LIMIT);
    }

    fn halt(&self, vm: &mut VM) {
        vm.halt = true;
    }

    fn clra(&self, vm: &mut VM) {
        vm.registers.acc = 0;
        vm.registers.ip = vm.registers.ip + 1;
    }

    fn inc3a(&self, vm: &mut VM) {
        vm.registers.acc = add_three(vm.registers.acc);
        vm.registers.ip = vm.registers.ip + 1;
    }

    fn deca(&self, vm: &mut VM) {
        vm.registers.acc = sub_one(vm.registers.acc);
        vm.registers.ip = vm.registers.ip + 1;
    }

    fn setl(&self, vm: &mut VM) {
        vm.registers.lc = vm.registers.acc;
        vm.registers.ip = vm.registers.ip + 1;
    }

    fn back7(&self, vm: &mut VM) {
        vm.registers.lc = sub_one(vm.registers.lc);
        if vm.registers.lc > 0 {
            vm.registers.ip = vm.registers.ip - LOOP_SPAN as u32;
        } else {
            vm.registers.ip = vm.registers.ip + 1;
        }
    }
}

} // verus!
