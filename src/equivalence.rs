//! The two backends agree: a native plan that matches its program halts
//! with exactly the register values the interpreter halts with.

use vstd::prelude::*;
use crate::jit::{block_ok, consumed, plan_matches, translates};
use crate::machine::{halts_with, initial_state, run, step, MachineState};
use crate::native::{
    apply_ops, native_entry, native_returns_with, native_run, native_step, NativeBlock, NativeOp,
    NativeState, Terminator,
};

verus! {

/// Running `a` then `b` instructions is running `a + b` of them.
proof fn lemma_run_add(code: Seq<u8>, s: MachineState, a: nat, b: nat)
    ensures
        run(code, s, a + b) == run(code, run(code, s, a), b),
    decreases a,
{
    if a > 0 && !s.halted {
        lemma_run_add(code, step(code, s), (a - 1) as nat, b);
        assert((a + b - 1) as nat == (a - 1) as nat + b);
    } else if a == 0 {
    } else {
        lemma_run_halted(code, s, b);
        lemma_run_halted(code, s, a + b);
    }
}

/// A halted state stays as it is.
proof fn lemma_run_halted(code: Seq<u8>, s: MachineState, fuel: nat)
    requires
        s.halted,
    ensures
        run(code, s, fuel) == s,
{
}

/// A returned native state stays as it is.
proof fn lemma_native_returned(f: Seq<NativeBlock>, s: NativeState, fuel: nat)
    requires
        s.returned,
    ensures
        native_run(f, s, fuel) == s,
{
}

/// The interpreter state at `ip` with registers `regs`.
spec fn at(ip: int, regs: (i32, i32)) -> MachineState {
    MachineState { ip, acc: regs.0, lc: regs.1, halted: false }
}

/// The interpreter runs the register-only instructions that `ops` translates
/// one by one, as the operations do.
proof fn lemma_straight(code: Seq<u8>, o: int, ops: Seq<NativeOp>, regs: (i32, i32), j: nat)
    requires
        translates(code, o, ops),
        j <= ops.len(),
    ensures
        run(code, at(o, regs), j) == at(o + j, apply_ops(ops.take(j as int), regs)),
    decreases j,
{
    if j == 0 {
        assert(ops.take(0) =~= Seq::<NativeOp>::empty());
    } else {
        let i = (j - 1) as nat;
        lemma_straight(code, o, ops, regs, i);
        lemma_run_add(code, at(o, regs), i, 1);
        let mid = at(o + i, apply_ops(ops.take(i as int), regs));
        assert(run(code, mid, 1) == run(code, step(code, mid), 0));
        assert(ops.take(j as int).drop_last() =~= ops.take(i as int));
        assert(is_straight_at(code, o, ops, i as int));
        assert((i + 1) as nat == j);
    }
}

spec fn is_straight_at(code: Seq<u8>, o: int, ops: Seq<NativeOp>, j: int) -> bool {
    crate::jit::is_straight(code[o + j]) && ops[j] == crate::jit::straight_op(code[o + j])
}

/// If the plan returns from block `k`, the interpreter halts from the
/// block's origin with the same registers.
proof fn lemma_native_to_simple(code: Seq<u8>, f: Seq<NativeBlock>, k: int, regs: (i32, i32), fuel: nat) -> (sf: nat)
    requires
        plan_matches(code, f),
        0 <= k < f.len(),
        native_run(f, NativeState { block: k, acc: regs.0, lc: regs.1, returned: false }, fuel).returned,
    ensures
        ({
            let n = native_run(f, NativeState { block: k, acc: regs.0, lc: regs.1, returned: false }, fuel);
            let s = run(code, at(f[k].origin as int, regs), sf);
            s.halted && s.acc == n.acc && s.lc == n.lc
        }),
    decreases fuel,
{
    let ns = NativeState { block: k, acc: regs.0, lc: regs.1, returned: false };
    let b = f[k];
    let o = b.origin as int;
    let ops = b.ops@;
    assert(block_ok(code, f, k, f.len() as int));
    let next = native_step(f, ns);
    assert(native_run(f, ns, fuel) == native_run(f, next, (fuel - 1) as nat));
    match b.terminator {
        Terminator::Return => {
            lemma_native_returned(f, next, (fuel - 1) as nat);
            lemma_straight(code, o, ops, regs, ops.len());
            assert(ops.take(ops.len() as int) =~= ops);
            lemma_run_add(code, at(o, regs), ops.len(), 1);
            let mid = at(o + ops.len(), apply_ops(ops, regs));
            assert(run(code, mid, 1) == run(code, step(code, mid), 0));
            ops.len() + 1
        },
        Terminator::Jump { target } => {
            assert(f[k + 1].origin == f[k].origin + consumed(f[k]));
            let rest = lemma_native_to_simple(code, f, k + 1, apply_ops(ops, regs), (fuel - 1) as nat);
            lemma_straight(code, o, ops, regs, ops.len());
            assert(ops.take(ops.len() as int) =~= ops);
            lemma_run_add(code, at(o, regs), ops.len(), rest);
            ops.len() + rest
        },
        Terminator::BranchIfPositive { taken, not_taken } => {
            let body = ops.drop_last();
            let m = body.len();
            lemma_straight(code, o, body, regs, m);
            assert(body.take(m as int) =~= body);
            assert(ops =~= body.push(NativeOp::DecLc));
            assert(ops.drop_last() =~= body);
            let mid = at(o + m, apply_ops(body, regs));
            let after = step(code, mid);
            let out = apply_ops(ops, regs);
            assert(after.acc == out.0 && after.lc == out.1 && !after.halted);
            assert(f[k + 1].origin == f[k].origin + consumed(f[k]));
            let target: int = if out.1 > 0 { taken as int } else { not_taken as int };
            assert(after == at(f[target].origin as int, out));
            let rest = lemma_native_to_simple(code, f, target, out, (fuel - 1) as nat);
            lemma_run_add(code, at(o, regs), m, 1);
            assert(run(code, mid, 1) == run(code, step(code, mid), 0));
            lemma_run_add(code, at(o, regs), m + 1, rest);
            m + 1 + rest
        },
    }
}

/// If the interpreter halts from the origin of block `k`, the plan returns
/// from block `k` with the same registers.
proof fn lemma_simple_to_native(code: Seq<u8>, f: Seq<NativeBlock>, k: int, regs: (i32, i32), sf: nat) -> (fuel: nat)
    requires
        plan_matches(code, f),
        0 <= k < f.len(),
        run(code, at(f[k].origin as int, regs), sf).halted,
    ensures
        ({
            let n = native_run(f, NativeState { block: k, acc: regs.0, lc: regs.1, returned: false }, fuel);
            let s = run(code, at(f[k].origin as int, regs), sf);
            n.returned && s.acc == n.acc && s.lc == n.lc
        }),
    decreases sf, f.len() - k,
{
    let ns = NativeState { block: k, acc: regs.0, lc: regs.1, returned: false };
    let b = f[k];
    let o = b.origin as int;
    let ops = b.ops@;
    assert(block_ok(code, f, k, f.len() as int));
    let next = native_step(f, ns);
    let body = match b.terminator {
        Terminator::BranchIfPositive { .. } => ops.drop_last(),
        _ => ops,
    };
    let m = body.len();
    assert(translates(code, o, body));
    if sf <= m {
        lemma_straight(code, o, body, regs, sf);
        assert(false);
    }
    lemma_straight(code, o, body, regs, m);
    assert(body.take(m as int) =~= body);
    let mid = at(o + m, apply_ops(body, regs));
    lemma_run_add(code, at(o, regs), m, (sf - m) as nat);
    assert(run(code, at(o, regs), sf) == run(code, mid, (sf - m) as nat));
    match b.terminator {
        Terminator::Return => {
            let after = step(code, mid);
            assert(run(code, mid, (sf - m) as nat) == run(code, after, (sf - m - 1) as nat));
            lemma_run_halted(code, after, (sf - m - 1) as nat);
            assert(native_run(f, ns, 1) == native_run(f, next, 0));
            1
        },
        Terminator::Jump { target } => {
            assert(f[k + 1].origin == f[k].origin + consumed(f[k]));
            let rest = lemma_simple_to_native(code, f, k + 1, apply_ops(ops, regs), (sf - m) as nat);
            assert(native_run(f, ns, rest + 1) == native_run(f, next, rest));
            rest + 1
        },
        Terminator::BranchIfPositive { taken, not_taken } => {
            assert(ops =~= body.push(NativeOp::DecLc));
            let after = step(code, mid);
            let out = apply_ops(ops, regs);
            assert(after.acc == out.0 && after.lc == out.1 && !after.halted);
            assert(f[k + 1].origin == f[k].origin + consumed(f[k]));
            let target: int = if out.1 > 0 { taken as int } else { not_taken as int };
            assert(after == at(f[target].origin as int, out));
            assert(run(code, mid, (sf - m) as nat) == run(code, after, (sf - m - 1) as nat));
            let rest = lemma_simple_to_native(code, f, target, out, (sf - m - 1) as nat);
            assert(native_run(f, ns, rest + 1) == native_run(f, next, rest));
            rest + 1
        },
    }
}

/// A native plan that matches its program computes what the interpreter
/// computes: started from the same registers, the interpreter halts with
/// `acc2` and `lc2` exactly when the plan returns with them. `compile` gives
/// such a plan for every well-formed program, so on those the interpreter
/// and the native backends end with the same `acc` and `lc`.
pub proof fn lemma_plan_agrees_with_interpreter(
    code: Seq<u8>,
    f: Seq<NativeBlock>,
    acc: i32,
    lc: i32,
    acc2: i32,
    lc2: i32,
)
    requires
        plan_matches(code, f),
    ensures
        halts_with(code, acc, lc, acc2, lc2) <==> native_returns_with(f, acc, lc, acc2, lc2),
{
    assert(initial_state(acc, lc) == at(f[0].origin as int, (acc, lc)));
    assert(native_entry(acc, lc) == NativeState { block: 0, acc, lc, returned: false });
    if halts_with(code, acc, lc, acc2, lc2) {
        let sf = choose|sf: nat| {
            let s = #[trigger] run(code, initial_state(acc, lc), sf);
            s.halted && s.acc == acc2 && s.lc == lc2
        };
        let fuel = lemma_simple_to_native(code, f, 0, (acc, lc), sf);
        assert(native_run(f, native_entry(acc, lc), fuel).returned);
    }
    if native_returns_with(f, acc, lc, acc2, lc2) {
        let fuel = choose|fuel: nat| {
            let s = #[trigger] native_run(f, native_entry(acc, lc), fuel);
            s.returned && s.acc == acc2 && s.lc == lc2
        };
        let sf = lemma_native_to_simple(code, f, 0, (acc, lc), fuel);
        assert(run(code, initial_state(acc, lc), sf).halted);
    }
}

} // verus!
