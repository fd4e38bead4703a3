//! The virtual machine: registers, the program it runs, and the backend
//! chosen for it.

use vstd::prelude::*;
use crate::interpreter::{Interpreter, SimpleInterpreter, STEP_LIMIT};
use crate::jit::{compile, plan_matches, TranslationError};
use crate::machine::{initial_state, run, MachineState};
use crate::native::NativeFunction;
use crate::program::{well_formed_code, Program};

verus! {

/// The backend a VM runs its program with.
#[derive(Debug, Clone, Copy, PartialEq, Eq, Structural)]
pub enum RunningMode {
    Simple,
    NoOptJitted,
    OptJitted,
}

/// The machine's registers.
#[derive(Debug, Clone, Copy, PartialEq, Eq, Structural)]
pub struct Registers {
    pub ip: u32,
    pub acc: i32,
    pub lc: i32,
}

impl Registers {
    /// The instruction pointer; meaningful after an interpreted run only.
    pub fn ip_value(&self) -> (r: u32)
        ensures
            r == self.ip,
    {
        self.ip
    }

    pub fn acc_value(&self) -> (r: i32)
        ensures
            r == self.acc,
    {
        self.acc
    }

    pub fn lc_value(&self) -> (r: i32)
        ensures
            r == self.lc,
    {
        self.lc
    }
}

/// A machine set up to run one program with one backend.
#[derive(Debug)]
pub struct VM {
    pub registers: Registers,
    pub running_program: Program,
    pub mode: RunningMode,
    pub halt: bool,
    /// Time the last run took, in nanoseconds, as measured by the caller.
    pub running_time_ns: u64,
}

impl VM {
    /// The registers and halt flag as a machine state.
    pub open spec fn state(&self) -> MachineState {
        MachineState {
            ip: self.registers.ip as int,
            acc: self.registers.acc,
            lc: self.registers.lc,
            halted: self.halt,
        }
    }

    /// The code the machine runs.
    pub open spec fn code(&self) -> Seq<u8> {
        self.running_program.data@
    }

    /// The program is well formed and the instruction pointer is inside it.
    pub open spec fn ready(&self) -> bool {
        well_formed_code(self.code()) && self.registers.ip < self.code().len()
    }

    pub fn new(mode: RunningMode, running_program: Program) -> (r: VM)
        ensures
            r.state() == initial_state(running_program.initial_acc, running_program.initial_lc),
            r.running_program == running_program,
            r.mode == mode,
            r.running_time_ns == 0,
            well_formed_code(running_program.data@) ==> r.ready(),
    {
        VM {
            registers: Registers {
                ip: 0,
                acc: running_program.initial_acc,
                lc: running_program.initial_lc,
            },
            halt: false,
            running_time_ns: 0,
            running_program,
            mode,
        }
    }

    pub fn is_halt(&self) -> (r: bool)
        ensures
            r == self.halt,
    {
        self.halt
    }

    pub fn registers(&self) -> (r: &Registers)
        ensures
            *r == self.registers,
    {
        &self.registers
    }

    pub fn program(&self) -> (r: &Program)
        ensures
            *r == self.running_program,
    {
        &self.running_program
    }

    pub fn mode(&self) -> (r: RunningMode)
        ensures
            r == self.mode,
    {
        self.mode
    }

    /// Runs the program with the interpreter until HALT (or `STEP_LIMIT`
    /// instructions).
    pub fn run_simple(&mut self)
        requires
            old(self).ready(),
        ensures
            final(self).ready(),
            final(self).running_program == old(self).running_program,
            final(self).mode == old(self).mode,
            final(self).state() == run(old(self).code(), old(self).state(), STEP_LIMIT as nat),
    {
        SimpleInterpreter.run(self);
    }

    /// The native plan for the program, to be lowered and executed by a code
    /// generator with `write_back` taking its results.
    pub fn native_plan(&self) -> (r: Result<NativeFunction, TranslationError>)
        ensures
            r matches Ok(f) ==> plan_matches(self.code(), f.blocks@),
            well_formed_code(self.code()) ==> r is Ok,
    {
        compile(&self.running_program)
    }

    /// Takes the register values a native run returned with; the machine has
    /// then halted.
    pub fn write_back(&mut self, acc: i32, lc: i32)
        ensures
            final(self).registers.ip == old(self).registers.ip,
            final(self).registers.acc == acc,
            final(self).registers.lc == lc,
            final(self).halt,
            final(self).running_program == old(self).running_program,
            final(self).mode == old(self).mode,
            final(self).running_time_ns == old(self).running_time_ns,
    {
        self.registers.acc = acc;
        self.registers.lc = lc;
        self.halt = true;
    }

    /// Records how long the last run took.
    pub fn set_running_time(&mut self, ns: u64)
        ensures
            final(self).running_time_ns == ns,
            final(self).registers == old(self).registers,
            final(self).halt == old(self).halt,
            final(self).running_program == old(self).running_program,
            final(self).mode == old(self).mode,
    {
        self.running_time_ns = ns;
    }
}

} // verus!
