//! The translator from basic blocks to a native plan, with the boundary list
//! that resolves each BACK7 to its loop header.

use vstd::prelude::*;
use crate::native::{NativeBlock, NativeFunction, NativeOp, Terminator};
use crate::opcode::{BACK7_BYTE, CLRA_BYTE, DECA_BYTE, HALT_BYTE, INC3A_BYTE, SETL_BYTE, SPILL_BYTE};
use crate::fidelity::{
    count, lemma_back7_rank, lemma_block_in_flatten, lemma_count_prefix, lemma_count_step, lemma_ext_index,
    lemma_extended_last, lemma_partition_ends, lemma_spills_before, spills_before,
};
use crate::program::{
    basic_blocks, ends_block, extended, opens_loop, views, well_formed_code, Program, LOOP_SPAN,
};

verus! {

/// An internal inconsistency met while translating; never an input error.
#[derive(Debug, Clone, Copy, PartialEq, Eq, Structural)]
pub enum TranslationError {
    /// A BACK7 found no unconsumed entry in the boundary list.
    UnmatchedBack7 { block: usize },
    /// The boundary entry a BACK7 consumed does not lead to its loop header.
    MisplacedBoundary { block: usize },
    /// A block holds an instruction other than the one the program holds there.
    BlockMismatch { block: usize },
    /// A block lacks a terminator, has instructions after it, or has no
    /// block to continue in.
    BadTerminator { block: usize },
}

/// Whether `b` is an instruction that only changes the registers.
pub open spec fn is_straight(b: u8) -> bool {
    CLRA_BYTE <= b <= SETL_BYTE
}

/// The operation a register-only instruction becomes.
pub open spec fn straight_op(b: u8) -> NativeOp {
    if b == CLRA_BYTE {
        NativeOp::Zero
    } else if b == INC3A_BYTE {
        NativeOp::AddThree
    } else if b == DECA_BYTE {
        NativeOp::SubOne
    } else {
        NativeOp::CopyAccToLc
    }
}

/// `ops` are the register-only instructions of `code` from `o` on.
pub open spec fn translates(code: Seq<u8>, o: int, ops: Seq<NativeOp>) -> bool {
    &&& 0 <= o
    &&& o + ops.len() <= code.len()
    &&& forall|j: int|
        0 <= j < ops.len() ==> is_straight(#[trigger] code[o + j]) && ops[j] == straight_op(code[o + j])
}

/// How many program instructions a native block stands for.
pub open spec fn consumed(b: NativeBlock) -> int {
    match b.terminator {
        Terminator::Return => b.ops@.len() as int + 1,
        _ => b.ops@.len() as int,
    }
}

/// Block `k` of a function of `n` blocks, whose first blocks are `f`, does
/// what the program does from the block's origin on.
pub open spec fn block_ok(code: Seq<u8>, f: Seq<NativeBlock>, k: int, n: int) -> bool {
    let b = f[k];
    let o = b.origin as int;
    let ops = b.ops@;
    match b.terminator {
        Terminator::Return => {
            &&& translates(code, o, ops)
            &&& o + ops.len() < code.len()
            &&& code[o + ops.len()] == HALT_BYTE
        },
        Terminator::Jump { target } => {
            &&& target == k + 1
            &&& target < n
            &&& translates(code, o, ops)
        },
        Terminator::BranchIfPositive { taken, not_taken } => {
            &&& not_taken == k + 1
            &&& not_taken < n
            &&& taken <= k
            &&& ops.len() > 0
            &&& ops.last() == NativeOp::DecLc
            &&& translates(code, o, ops.drop_last())
            &&& o + ops.len() - 1 < code.len()
            &&& code[o + ops.len() - 1] == BACK7_BYTE
            &&& f[taken as int].origin + 6 == o + ops.len() - 1
        },
    }
}

/// The plan follows `code` block by block: it starts at the first
/// instruction, each block continues where the one before it stopped, and
/// each back edge lands six instructions before its BACK7.
pub open spec fn plan_matches(code: Seq<u8>, f: Seq<NativeBlock>) -> bool {
    &&& f.len() > 0
    &&& f[0].origin == 0
    &&& forall|k: int| 0 <= k < f.len() ==> #[trigger] block_ok(code, f, k, f.len() as int)
    &&& forall|k: int|
        0 <= k < f.len() - 1 ==> #[trigger] f[k + 1].origin == f[k].origin + consumed(f[k])
}

/// Translates the basic blocks of `code` into a native plan, one native
/// block per basic block. A SPILL ends its block with a jump to the next one
/// and appends the block to the boundary list; a BACK7 decrements `lc` and
/// branches, when it is positive, to the block after the next unconsumed
/// boundary entry. On the blocks of a well-formed program it succeeds.
pub fn translate(code: &Vec<u8>, blocks: &Vec<Vec<u8>>) -> (r: Result<NativeFunction, TranslationError>)
    ensures
        r matches Ok(f) ==> plan_matches(code@, f.blocks@) && f.blocks@.len() == blocks@.len(),
        well_formed_code(code@) && views(blocks@) == basic_blocks(code@) ==> r is Ok,
{
    let ghost good = well_formed_code(code@) && views(blocks@) == basic_blocks(code@);
    let ghost ext = extended(code@);
    let ghost bs = views(blocks@);
    let ghost mut q: int = 0;
    let ghost mut headers: Seq<int> = Seq::empty();
    let n = blocks.len();
    let mut out: Vec<NativeBlock> = Vec::new();
    let mut boundary: Vec<usize> = Vec::new();
    let mut used: usize = 0;
    let mut pos: usize = 0;
    let mut k: usize = 0;
    proof {
        if good {
            assert(bs.take(0) =~= Seq::<Seq<u8>>::empty());
            assert(ext.take(0) =~= Seq::<u8>::empty());
        }
    }
    while k < n
        invariant
            n == blocks@.len(),
            k <= n,
            out@.len() == k,
            pos <= code@.len(),
            k == 0 ==> pos == 0,
            k > 0 ==> out@[0].origin == 0,
            k > 0 ==> pos == out@[k - 1].origin + consumed(out@[k - 1]),
            forall|i: int| 0 <= i < k ==> #[trigger] block_ok(code@, out@, i, n as int),
            forall|i: int| 0 <= i < k - 1 ==> #[trigger] out@[i + 1].origin == out@[i].origin + consumed(out@[i]),
            forall|i: int| 0 <= i < boundary@.len() ==> #[trigger] boundary@[i] < k,
            good == (well_formed_code(code@) && views(blocks@) == basic_blocks(code@)),
            ext == extended(code@),
            bs == views(blocks@),
            good ==> {
                &&& q == bs.take(k as int).flatten().len()
                &&& 0 <= q <= ext.len()
                &&& pos == q - count(ext.take(q), SPILL_BYTE)
                &&& used == count(ext.take(q), BACK7_BYTE)
                &&& boundary@.len() == count(ext.take(q), SPILL_BYTE)
                &&& headers.len() == boundary@.len()
                &&& forall|t: int|
                    0 <= t < headers.len() ==> opens_loop(code@, #[trigger] headers[t]) && spills_before(
                        code@,
                        headers[t],
                    ) == t
                &&& forall|t: int|
                    0 <= t < boundary@.len() ==> (#[trigger] boundary@[t] + 1 < k ==> out@[boundary@[t] + 1].origin
                        == headers[t]) && (boundary@[t] + 1 == k ==> pos == headers[t])
            },
        decreases n - k,
    {
        let blk = &blocks[k];
        let origin = pos;
        let mut ops: Vec<NativeOp> = Vec::new();
        let mut term: Option<Terminator> = None;
        let mut j: usize = 0;
        let ghost base = q;
        proof {
            if good {
                lemma_block_in_flatten(bs, k as int);
                lemma_partition_ends(ext);
                assert(bs[k as int] == blk@);
            }
        }
        while j < blk.len() && term.is_none()
            invariant
                n == blocks@.len(),
                k < n,
                out@.len() == k,
                origin <= pos <= code@.len(),
                j <= blk@.len(),
                term is None ==> translates(code@, origin as int, ops@) && pos == origin + ops@.len(),
                term matches Some(t) ==> {
                    let nb = NativeBlock { origin, ops, terminator: t };
                    &&& block_ok(code@, out@.push(nb), k as int, n as int)
                    &&& pos == origin + consumed(nb)
                },
                forall|i: int| 0 <= i < boundary@.len() ==> #[trigger] boundary@[i] <= k,
                term is None ==> forall|i: int| 0 <= i < boundary@.len() ==> #[trigger] boundary@[i] < k,
                good == (well_formed_code(code@) && views(blocks@) == basic_blocks(code@)),
                ext == extended(code@),
                bs == views(blocks@),
                blk == blocks@[k as int],
                good ==> {
                    &&& bs[k as int] == blk@
                    &&& base == bs.take(k as int).flatten().len()
                    &&& base + blk@.len() <= ext.len()
                    &&& ext.subrange(base, base + blk@.len()) == blk@
                    &&& q == base + j
                    &&& pos == q - count(ext.take(q), SPILL_BYTE)
                    &&& used == count(ext.take(q), BACK7_BYTE)
                    &&& boundary@.len() == count(ext.take(q), SPILL_BYTE)
                    &&& headers.len() == boundary@.len()
                    &&& forall|t: int|
                        0 <= t < headers.len() ==> opens_loop(code@, #[trigger] headers[t]) && spills_before(
                            code@,
                            headers[t],
                        ) == t
                    &&& forall|t: int|
                        0 <= t < boundary@.len() ==> (#[trigger] boundary@[t] + 1 < k
                            ==> out@[boundary@[t] + 1].origin == headers[t]) && (boundary@[t] + 1 == k ==> origin
                            == headers[t]) && (boundary@[t] == k ==> pos == headers[t])
                    &&& term is Some ==> j == blk@.len() || pos == code@.len()
                    &&& term is None ==> forall|i: int|
                        0 <= i < j ==> !ends_block(#[trigger] blk@[i]) && blk@[i] != HALT_BYTE
                    &&& forall|kk: int, jj: int|
                        0 <= kk < bs.len() && 0 <= jj < bs[kk].len() && ends_block(#[trigger] bs[kk][jj])
                            ==> jj == bs[kk].len() - 1 && kk < bs.len() - 1
                },
            decreases blk@.len() - j,
        {
            let b = blk[j];
            proof {
                if good {
                    assert(ext[q] == b);
                    lemma_ext_index(code@, code@.len() as int, q);
                    lemma_count_step(ext, q, SPILL_BYTE);
                    lemma_count_step(ext, q, BACK7_BYTE);
                }
            }
            if b == SPILL_BYTE {
                if k + 1 >= n {
                    return Err(TranslationError::BadTerminator { block: k });
                }
                term = Some(Terminator::Jump { target: k + 1 });
                proof {
                    if good {
                        headers = headers.push(pos as int);
                    }
                }
                boundary.push(k);
            } else {
                if pos >= code.len() || code[pos] != b {
                    return Err(TranslationError::BlockMismatch { block: k });
                }
                if b == HALT_BYTE {
                    term = Some(Terminator::Return);
                } else if b == CLRA_BYTE {
                    ops.push(NativeOp::Zero);
                } else if b == INC3A_BYTE {
                    ops.push(NativeOp::AddThree);
                } else if b == DECA_BYTE {
                    ops.push(NativeOp::SubOne);
                } else if b == SETL_BYTE {
                    ops.push(NativeOp::CopyAccToLc);
                } else if b == BACK7_BYTE {
                    proof {
                        if good {
                            let hi = if pos + 7 < code@.len() { pos + 7 } else { code@.len() as int };
                            lemma_spills_before(code@, pos + 1);
                            lemma_count_step(code@, pos as int, BACK7_BYTE);
                            lemma_count_prefix(code@, pos + 1, hi, BACK7_BYTE);
                        }
                    }
                    if used >= boundary.len() {
                        return Err(TranslationError::UnmatchedBack7 { block: k });
                    }
                    let taken = boundary[used] + 1;
                    proof {
                        if good {
                            let h = headers[used as int];
                            lemma_spills_before(code@, h);
                            if h + 6 < pos {
                                lemma_back7_rank(code@, h + 6, pos as int);
                            } else if h + 6 > pos {
                                lemma_back7_rank(code@, pos as int, h + 6);
                            }
                            assert(h + 6 == pos);
                        }
                    }
                    used = used + 1;
                    let header = if taken == k { origin } else { out[taken].origin };
                    if header >= pos || pos - header != LOOP_SPAN {
                        return Err(TranslationError::MisplacedBoundary { block: k });
                    }
                    if k + 1 >= n {
                        return Err(TranslationError::BadTerminator { block: k });
                    }
                    proof {
                        assert(ops@.push(NativeOp::DecLc).drop_last() =~= ops@);
                    }
                    ops.push(NativeOp::DecLc);
                    term = Some(Terminator::BranchIfPositive { taken, not_taken: k + 1 });
                } else {
                    return Err(TranslationError::BlockMismatch { block: k });
                }
                pos = pos + 1;
            }
            j = j + 1;
            proof {
                if good {
                    q = q + 1;
                }
            }
        }
        proof {
            if good {
                if j < blk.len() {
                    lemma_ext_index(code@, code@.len() as int, q);
                    assert(ext[q] == blk@[j as int]);
                }
                if term is None {
                    assert(j == blk@.len());
                    if k < n - 1 {
                        assert(bs[k as int].len() > 0 && ends_block(bs[k as int].last()));
                        assert(!ends_block(blk@[blk@.len() - 1]));
                    } else {
                        lemma_extended_last(code@);
                        assert(bs.last() == blk@);
                        assert(!ends_block(blk@[blk@.len() - 1]));
                    }
                }
            }
        }
        let terminator = match term {
            Some(t) => t,
            None => {
                return Err(TranslationError::BadTerminator { block: k });
            },
        };
        if j < blk.len() {
            return Err(TranslationError::BadTerminator { block: k });
        }
        let ghost before = out@;
        out.push(NativeBlock { origin, ops, terminator });
        proof {
            assert forall|i: int| 0 <= i < k + 1 implies #[trigger] block_ok(code@, out@, i, n as int) by {
                if i < k {
                    assert(block_ok(code@, before, i, n as int));
                    assert(out@[i] == before[i]);
                }
            }
            if good {
                assert(out@[k as int].origin == origin);
                assert forall|t: int| 0 <= t < boundary@.len() implies (#[trigger] boundary@[t] + 1 < k + 1
                    ==> out@[boundary@[t] + 1].origin == headers[t]) && (boundary@[t] + 1 == k + 1 ==> pos
                    == headers[t]) by {
                    if boundary@[t] + 1 < k {
                        assert(out@[boundary@[t] + 1] == before[boundary@[t] + 1]);
                    }
                }
            }
        }
        k = k + 1;
    }
    proof {
        if good {
            assert(bs.len() > 0);
        }
    }
    if n == 0 {
        return Err(TranslationError::BadTerminator { block: 0 });
    }
    Ok(NativeFunction { blocks: out })
}

/// Partitions a program into basic blocks and translates them.
pub fn compile(program: &Program) -> (r: Result<NativeFunction, TranslationError>)
    ensures
        r matches Ok(f) ==> plan_matches(program.data@, f.blocks@),
        well_formed_code(program.data@) ==> r is Ok,
{
    let blocks = program.build_basic_blocks();
    translate(&program.data, &blocks)
}

} // verus!
