//! The native plan: the control-flow graph the translator hands to a code
//! generator, and what executing it means.

use vstd::prelude::*;
use crate::machine::{add_three, sub_one, wrapping};

verus! {

/// An operation on the two local register slots.
#[derive(Debug, Clone, Copy, PartialEq, Eq, Structural)]
pub enum NativeOp {
    /// `acc = 0`
    Zero,
    /// `acc = acc + 3`, wrapping
    AddThree,
    /// `acc = acc - 1`, wrapping
    SubOne,
    /// `lc = acc`
    CopyAccToLc,
    /// `lc = lc - 1`, wrapping
    DecLc,
}

/// How a native block ends.
#[derive(Debug, Clone, Copy, PartialEq, Eq, Structural)]
pub enum Terminator {
    /// Continue in block `target`.
    Jump { target: usize },
    /// Continue in `taken` if `lc > 0`, else in `not_taken`.
    BranchIfPositive { taken: usize, not_taken: usize },
    /// Write both slots back through the output pointers and return.
    Return,
}

/// A straight run of operations with exactly one terminator. `origin` is the
/// position in the program of the first instruction the block translates.
#[derive(Debug, Clone)]
pub struct NativeBlock {
    pub origin: usize,
    pub ops: Vec<NativeOp>,
    pub terminator: Terminator,
}

/// A whole native function; execution starts in block 0.
#[derive(Debug, Clone)]
pub struct NativeFunction {
    pub blocks: Vec<NativeBlock>,
}

/// The effect of one operation on `(acc, lc)`.
pub open spec fn apply_op(op: NativeOp, regs: (i32, i32)) -> (i32, i32) {
    match op {
        NativeOp::Zero => (0i32, regs.1),
        NativeOp::AddThree => (wrapping(regs.0, 3), regs.1),
        NativeOp::SubOne => (wrapping(regs.0, -1), regs.1),
        NativeOp::CopyAccToLc => (regs.0, regs.0),
        NativeOp::DecLc => (regs.0, wrapping(regs.1, -1)),
    }
}

/// The effect of a sequence of operations, first to last.
pub open spec fn apply_ops(ops: Seq<NativeOp>, regs: (i32, i32)) -> (i32, i32)
    decreases ops.len(),
{
    if ops.len() == 0 {
        regs
    } else {
        apply_op(ops.last(), apply_ops(ops.drop_last(), regs))
    }
}

/// Where native execution stands: the block about to run and the slots.
pub ghost struct NativeState {
    pub block: int,
    pub acc: i32,
    pub lc: i32,
    pub returned: bool,
}

/// One whole block; a returned state, or one outside the function, stays.
pub open spec fn native_step(f: Seq<NativeBlock>, s: NativeState) -> NativeState {
    if s.returned || s.block < 0 || s.block >= f.len() {
        s
    } else {
        let b = f[s.block];
        let regs = apply_ops(b.ops@, (s.acc, s.lc));
        match b.terminator {
            Terminator::Jump { target } => NativeState {
                block: target as int,
                acc: regs.0,
                lc: regs.1,
                returned: false,
            },
            Terminator::BranchIfPositive { taken, not_taken } => NativeState {
                block: if regs.1 > 0 { taken as int } else { not_taken as int },
                acc: regs.0,
                lc: regs.1,
                returned: false,
            },
            Terminator::Return => NativeState { block: s.block, acc: regs.0, lc: regs.1, returned: true },
        }
    }
}

/// At most `fuel` blocks.
pub open spec fn native_run(f: Seq<NativeBlock>, s: NativeState, fuel: nat) -> NativeState
    decreases fuel,
{
    if fuel == 0 || s.returned {
        s
    } else {
        native_run(f, native_step(f, s), (fuel - 1) as nat)
    }
}

/// The state the function is entered in.
pub open spec fn native_entry(acc: i32, lc: i32) -> NativeState {
    NativeState { block: 0, acc, lc, returned: false }
}

/// Called with `acc` and `lc`, the function returns with `acc2` and `lc2`.
pub open spec fn native_returns_with(f: Seq<NativeBlock>, acc: i32, lc: i32, acc2: i32, lc2: i32) -> bool {
    exists|fuel: nat| {
        let s = #[trigger] native_run(f, native_entry(acc, lc), fuel);
        s.returned && s.acc == acc2 && s.lc == lc2
    }
}

/// Applies one operation to the slots.
pub fn exec_op(op: NativeOp, acc: i32, lc: i32) -> (r: (i32, i32))
    ensures
        r == apply_op(op, (acc, lc)),
{
    match op {
        NativeOp::Zero => (0, lc),
        NativeOp::AddThree => (add_three(acc), lc),
        NativeOp::SubOne => (sub_one(acc), lc),
        NativeOp::CopyAccToLc => (acc, acc),
        NativeOp::DecLc => (acc, sub_one(lc)),
    }
}

impl NativeFunction {
    /// Executes the plan for at most `limit` blocks: the register values it
    /// returns with, or `None` if it has not returned by then.
    pub fn execute(&self, acc: i32, lc: i32, limit: u64) -> (r: Option<(i32, i32)>)
        ensures
            ({
                let s = native_run(self.blocks@, native_entry(acc, lc), limit as nat);
                if s.returned {
                    r == Some((s.acc, s.lc))
                } else {
                    r is None
                }
            }),
    {
        let ghost f = self.blocks@;
        let ghost start = native_entry(acc, lc);
        let mut block: usize = 0;
        let mut a = acc;
        let mut l = lc;
        let mut done: u64 = 0;
        while done < limit
            invariant
                f == self.blocks@,
                start == native_entry(acc, lc),
                done <= limit,
                native_run(f, start, limit as nat) == native_run(
                    f,
                    NativeState { block: block as int, acc: a, lc: l, returned: false },
                    (limit - done) as nat,
                ),
            decreases limit - done,
        {
            if block >= self.blocks.len() {
                proof {
                    let cur = NativeState { block: block as int, acc: a, lc: l, returned: false };
                    lemma_stuck(f, cur, (limit - done) as nat);
                    assert(native_run(f, start, limit as nat) == cur);
                }
                return None;
            }
            let b = &self.blocks[block];
            let ghost entry = (a, l);
            assert(0 <= block < f.len());
            let mut j: usize = 0;
            while j < b.ops.len()
                invariant
                    0 <= j <= b.ops@.len(),
                    (a, l) == apply_ops(b.ops@.take(j as int), entry),
                decreases b.ops@.len() - j,
            {
                let regs = exec_op(b.ops[j], a, l);
                a = regs.0;
                l = regs.1;
                proof {
                    assert(b.ops@.take(j + 1).drop_last() =~= b.ops@.take(j as int));
                }
                j = j + 1;
            }
            assert(b.ops@.take(b.ops@.len() as int) =~= b.ops@);
            match b.terminator {
                Terminator::Jump { target } => {
                    block = target;
                },
                Terminator::BranchIfPositive { taken, not_taken } => {
                    block = if l > 0 { taken } else { not_taken };
                },
                Terminator::Return => {
                    proof {
                        let cur = NativeState { block: block as int, acc: entry.0, lc: entry.1, returned: false };
                        let next = native_step(f, cur);
                        assert(next.returned && next.acc == a && next.lc == l);
                        assert(native_run(f, next, (limit - done - 1) as nat) == next);
                        assert(native_run(f, cur, (limit - done) as nat) == native_run(f, next, (limit - done - 1) as nat));
                        assert(native_run(f, start, limit as nat) == next);
                    }
                    return Some((a, l));
                },
            }
            done = done + 1;
        }
        None
    }
}

/// The native INC3A wraps as the interpreter's does: three more than the
/// largest accumulator is -2147483646.
pub proof fn lemma_add_three_wraps(lc: i32)
    ensures
        apply_op(NativeOp::AddThree, (i32::MAX, lc)) == (-2147483646i32, lc),
{
}

/// A state outside the function never moves.
proof fn lemma_stuck(f: Seq<NativeBlock>, s: NativeState, fuel: nat)
    requires
        !s.returned,
        s.block >= f.len(),
    ensures
        native_run(f, s, fuel) == s,
    decreases fuel,
{
    if fuel > 0 {
        lemma_stuck(f, s, (fuel - 1) as nat);
    }
}

} // verus!
