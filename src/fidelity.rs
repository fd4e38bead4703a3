//! What the basic-block partition preserves: the program itself, and a
//! SPILL-terminated block ahead of every BACK7-terminated one.

use vstd::prelude::*;
use crate::opcode::{BACK7_BYTE, SPILL_BYTE};
use crate::program::{
    all_external, basic_blocks, ends_block, extend_prefix, extended, opens_loop, partition, split,
    well_formed_code,
};

verus! {

/// How many times `b` occurs in `s`.
pub open spec fn count(s: Seq<u8>, b: u8) -> nat
    decreases s.len(),
{
    if s.len() == 0 {
        0
    } else {
        count(s.drop_last(), b) + if s.last() == b { 1nat } else { 0nat }
    }
}

/// How many of the blocks `bs` end with `b`.
pub open spec fn blocks_ending_with(bs: Seq<Seq<u8>>, b: u8) -> nat
    decreases bs.len(),
{
    if bs.len() == 0 {
        0
    } else {
        blocks_ending_with(bs.drop_last(), b) + if bs.last().len() > 0 && bs.last().last() == b {
            1nat
        } else {
            0nat
        }
    }
}

/// How many of the first `m` instructions get a SPILL marker before them.
pub open spec fn spills_before(code: Seq<u8>, m: int) -> nat
    decreases m,
{
    if m <= 0 {
        0
    } else {
        spills_before(code, m - 1) + if opens_loop(code, m - 1) { 1nat } else { 0nat }
    }
}

/// Only the last element of `blk` may end a block.
spec fn shaped(blk: Seq<u8>) -> bool {
    forall|i: int| 0 <= i < blk.len() - 1 ==> !ends_block(#[trigger] blk[i])
}

/// Every closed block is non-empty, ends a block only at its end; the open
/// block ends none; together they are `s`.
proof fn lemma_split_shape(s: Seq<u8>)
    ensures
        split(s).0.flatten() + split(s).1 == s,
        forall|k: int|
            0 <= k < split(s).0.len() ==> {
                let blk = #[trigger] split(s).0[k];
                blk.len() > 0 && ends_block(blk.last()) && shaped(blk)
            },
        forall|i: int| 0 <= i < split(s).1.len() ==> !ends_block(#[trigger] split(s).1[i]),
    decreases s.len(),
{
    if s.len() > 0 {
        let t = s.drop_last();
        lemma_split_shape(t);
        let (closed, open) = split(t);
        let cur = open.push(s.last());
        assert(t.push(s.last()) =~= s);
        if ends_block(s.last()) {
            closed.lemma_flatten_push(cur);
            assert(closed.flatten() + cur =~= closed.flatten() + open + seq![s.last()]);
            assert(split(s).1 =~= Seq::<u8>::empty());
            assert forall|k: int| 0 <= k < split(s).0.len() implies {
                let blk = #[trigger] split(s).0[k];
                blk.len() > 0 && ends_block(blk.last()) && shaped(blk)
            } by {
                if k < closed.len() {
                    assert(split(s).0[k] == closed[k]);
                } else {
                    assert(split(s).0[k] == cur);
                }
            }
        } else {
            assert(closed.flatten() + cur =~= closed.flatten() + open + seq![s.last()]);
        }
    } else {
        assert(split(s).0.flatten() =~= Seq::<u8>::empty());
        assert(split(s).0.flatten() + split(s).1 =~= s);
    }
}

/// Counting over a concatenation.
proof fn lemma_count_concat(a: Seq<u8>, c: Seq<u8>, b: u8)
    ensures
        count(a + c, b) == count(a, b) + count(c, b),
    decreases c.len(),
{
    if c.len() == 0 {
        assert(a + c =~= a);
    } else {
        assert((a + c).drop_last() =~= a + c.drop_last());
        lemma_count_concat(a, c.drop_last(), b);
    }
}

/// A sequence without `b` counts none of it.
proof fn lemma_count_absent(s: Seq<u8>, b: u8)
    requires
        forall|i: int| 0 <= i < s.len() ==> s[i] != b,
    ensures
        count(s, b) == 0,
    decreases s.len(),
{
    if s.len() > 0 {
        lemma_count_absent(s.drop_last(), b);
    }
}

/// A longer prefix holds at least as many of `b`.
pub proof fn lemma_count_prefix(s: Seq<u8>, x: int, y: int, b: u8)
    requires
        0 <= x <= y <= s.len(),
    ensures
        count(s.take(x), b) <= count(s.take(y), b),
    decreases y - x,
{
    if x < y {
        lemma_count_prefix(s, x, y - 1, b);
        assert(s.take(y).drop_last() =~= s.take(y - 1));
    }
}

/// In well-shaped blocks, a terminator occurs once per block it ends.
proof fn lemma_count_blocks(bs: Seq<Seq<u8>>, b: u8)
    requires
        ends_block(b),
        forall|k: int| 0 <= k < bs.len() ==> shaped(#[trigger] bs[k]),
    ensures
        count(bs.flatten(), b) == blocks_ending_with(bs, b),
    decreases bs.len(),
{
    if bs.len() > 0 {
        let init = bs.drop_last();
        let blk = bs.last();
        assert forall|k: int| 0 <= k < init.len() implies shaped(#[trigger] init[k]) by {
            assert(init[k] == bs[k]);
        }
        lemma_count_blocks(init, b);
        init.lemma_flatten_push(blk);
        assert(init.push(blk) =~= bs);
        lemma_count_concat(init.flatten(), blk, b);
        assert(shaped(bs[bs.len() - 1]));
        if blk.len() > 0 {
            let body = blk.drop_last();
            assert forall|i: int| 0 <= i < body.len() implies body[i] != b by {
                assert(body[i] == blk[i]);
            }
            lemma_count_absent(body, b);
        } else {
            assert(bs.flatten() =~= init.flatten() + blk);
        }
    } else {
        assert(bs.flatten() =~= Seq::<u8>::empty());
    }
}

/// The blocks of `s`, concatenated, are `s`; each of them is well shaped.
proof fn lemma_partition_shape(s: Seq<u8>)
    ensures
        partition(s).flatten() == s,
        forall|k: int| 0 <= k < partition(s).len() ==> shaped(#[trigger] partition(s)[k]),
{
    lemma_split_shape(s);
    let (closed, open) = split(s);
    closed.lemma_flatten_push(open);
    assert forall|k: int| 0 <= k < partition(s).len() implies shaped(#[trigger] partition(s)[k]) by {
        if k < closed.len() {
            assert(partition(s)[k] == closed[k]);
        } else {
            assert(partition(s)[k] == open);
        }
    }
}

/// Dropping the markers from the first `m` extended instructions gives the
/// first `m` instructions; the markers counted are the loops opened there.
pub proof fn lemma_extend_prefix(code: Seq<u8>, m: int)
    requires
        0 <= m <= code.len(),
        all_external(code),
    ensures
        extend_prefix(code, m).filter(|b: u8| b != SPILL_BYTE) == code.take(m),
        count(extend_prefix(code, m), BACK7_BYTE) == count(code.take(m), BACK7_BYTE),
        count(extend_prefix(code, m), SPILL_BYTE) == spills_before(code, m),
        extend_prefix(code, m).len() == m + spills_before(code, m),
    decreases m,
{
    let pred = |b: u8| b != SPILL_BYTE;
    if m == 0 {
        assert(extend_prefix(code, 0) =~= Seq::<u8>::empty());
        assert(code.take(0) =~= Seq::<u8>::empty());
        assert(Seq::<u8>::empty().filter(pred) =~= Seq::<u8>::empty()) by {
            reveal(Seq::filter);
        }
    } else {
        lemma_extend_prefix(code, m - 1);
        let prev = extend_prefix(code, m - 1);
        let c = code[m - 1];
        assert(c != SPILL_BYTE);
        assert(code.take(m) =~= code.take(m - 1).push(c));
        assert(code.take(m).drop_last() =~= code.take(m - 1));
        if opens_loop(code, m - 1) {
            let with_marker = prev.push(SPILL_BYTE);
            with_marker.lemma_filter_push(c, pred);
            prev.lemma_filter_push(SPILL_BYTE, pred);
            assert(with_marker.push(c).drop_last() =~= with_marker);
            assert(with_marker.drop_last() =~= prev);
            assert(count(with_marker, BACK7_BYTE) == count(prev, BACK7_BYTE));
            assert(count(with_marker, SPILL_BYTE) == count(prev, SPILL_BYTE) + 1);
            assert(count(with_marker.push(c), SPILL_BYTE) == count(with_marker, SPILL_BYTE));
        } else {
            prev.lemma_filter_push(c, pred);
            assert(prev.push(c).drop_last() =~= prev);
            assert(count(prev.push(c), SPILL_BYTE) == count(prev, SPILL_BYTE));
        }
    }
}

/// Without BACK7 among the first six instructions, the loops opened before
/// `m` are the BACK7s before `m + 6`.
pub proof fn lemma_spills_before(code: Seq<u8>, m: int)
    requires
        well_formed_code(code),
        0 <= m <= code.len(),
    ensures
        spills_before(code, m) == count(code.take(if m + 6 < code.len() { m + 6 } else { code.len() as int }), BACK7_BYTE),
    decreases m,
{
    let hi = if m + 6 < code.len() { m + 6 } else { code.len() as int };
    if m == 0 {
        assert forall|i: int| 0 <= i < code.take(hi).len() implies code.take(hi)[i] != BACK7_BYTE by {
            assert(code.take(hi)[i] == code[i]);
        }
        lemma_count_absent(code.take(hi), BACK7_BYTE);
    } else {
        lemma_spills_before(code, m - 1);
        let lo = if m + 5 < code.len() { m + 5 } else { code.len() as int };
        if lo < hi {
            assert(code.take(hi).drop_last() =~= code.take(lo));
        } else {
            assert(lo == hi);
        }
    }
}

/// At every point of the extended program, the SPILL markers passed are at
/// least as many as the BACK7s passed.
proof fn lemma_markers_lead(code: Seq<u8>, m: int, q: int)
    requires
        well_formed_code(code),
        0 <= m <= code.len(),
        0 <= q <= extend_prefix(code, m).len(),
    ensures
        count(extend_prefix(code, m).take(q), BACK7_BYTE) <= count(extend_prefix(code, m).take(q), SPILL_BYTE),
    decreases m,
{
    let e = extend_prefix(code, m);
    if m > 0 {
        let prev = extend_prefix(code, m - 1);
        if q <= prev.len() {
            lemma_markers_lead(code, m - 1, q);
            assert(e.take(q) =~= prev.take(q));
        } else {
            lemma_extend_prefix(code, m - 1);
            lemma_extend_prefix(code, m);
            lemma_spills_before(code, m - 1);
            lemma_spills_before(code, m);
            let hi = if m + 6 < code.len() { m + 6 } else { code.len() as int };
            lemma_count_prefix(code, m, hi, BACK7_BYTE);
            lemma_count_prefix(code, m - 1, m, BACK7_BYTE);
            assert(prev.take(prev.len() as int) =~= prev);
            assert(e.take(e.len() as int) =~= e);
            if q < e.len() {
                // Only the marker of the new instruction is taken.
                assert(opens_loop(code, m - 1));
                assert(e.take(q) =~= prev.push(SPILL_BYTE));
                assert(e.take(q).drop_last() =~= prev);
            }
        }
    } else {
        assert(e.take(q) =~= Seq::<u8>::empty());
    }
}

/// Element `q` of the extended program: `q` less the markers before it is
/// the instruction it is, or, for a marker, the loop header it precedes.
pub proof fn lemma_ext_index(code: Seq<u8>, m: int, q: int)
    requires
        0 <= m <= code.len(),
        all_external(code),
        0 <= q < extend_prefix(code, m).len(),
    ensures
        ({
            let e = extend_prefix(code, m);
            let p = q - count(e.take(q), SPILL_BYTE);
            &&& 0 <= p < m
            &&& count(e.take(q), BACK7_BYTE) == count(code.take(p), BACK7_BYTE)
            &&& e[q] == SPILL_BYTE ==> opens_loop(code, p) && count(e.take(q), SPILL_BYTE) == spills_before(code, p)
            &&& e[q] != SPILL_BYTE ==> e[q] == code[p] && count(e.take(q), SPILL_BYTE) == spills_before(code, p + 1)
        }),
    decreases m,
{
    let e = extend_prefix(code, m);
    let prev = extend_prefix(code, m - 1);
    lemma_extend_prefix(code, m - 1);
    if q < prev.len() {
        lemma_ext_index(code, m - 1, q);
        assert(e.take(q) =~= prev.take(q));
        assert(e[q] == prev[q]);
    } else {
        let c = code[m - 1];
        assert(c != SPILL_BYTE);
        assert(prev.take(prev.len() as int) =~= prev);
        assert(code.take(m) =~= code.take(m - 1).push(c));
        assert(code.take(m).drop_last() =~= code.take(m - 1));
        if opens_loop(code, m - 1) {
            if q == prev.len() {
                assert(e.take(q) =~= prev);
            } else {
                assert(e.take(q) =~= prev.push(SPILL_BYTE));
                assert(e.take(q).drop_last() =~= prev);
            }
        } else {
            assert(e.take(q) =~= prev);
        }
    }
}

/// In the blocks of `s`, BACK7 and SPILL stand only at the end of a block
/// that has another one after it; a last element of `s` that ends no block
/// ends the last block.
pub proof fn lemma_partition_ends(s: Seq<u8>)
    ensures
        partition(s).flatten() == s,
        forall|k: int, j: int|
            0 <= k < partition(s).len() && 0 <= j < partition(s)[k].len() && ends_block(
                #[trigger] partition(s)[k][j],
            ) ==> j == partition(s)[k].len() - 1 && k < partition(s).len() - 1,
        forall|k: int|
            0 <= k < partition(s).len() - 1 ==> #[trigger] partition(s)[k].len() > 0 && ends_block(
                partition(s)[k].last(),
            ),
        s.len() > 0 && !ends_block(s.last()) ==> partition(s).last().len() > 0 && partition(s).last().last()
            == s.last(),
{
    lemma_split_shape(s);
    lemma_partition_shape(s);
    let (closed, open) = split(s);
    assert forall|k: int, j: int|
        0 <= k < partition(s).len() && 0 <= j < partition(s)[k].len() && ends_block(
            #[trigger] partition(s)[k][j],
        ) implies j == partition(s)[k].len() - 1 && k < partition(s).len() - 1 by {
        if k < closed.len() {
            assert(partition(s)[k] == closed[k]);
            assert(shaped(closed[k]));
        } else {
            assert(partition(s)[k] == open);
        }
    }
    assert forall|k: int| 0 <= k < partition(s).len() - 1 implies #[trigger] partition(s)[k].len() > 0
        && ends_block(partition(s)[k].last()) by {
        assert(partition(s)[k] == closed[k]);
    }
    if s.len() > 0 && !ends_block(s.last()) {
        let (c2, o2) = split(s.drop_last());
        assert(split(s).1 == o2.push(s.last()));
    }
}

/// Block `k` stands in the concatenation right after the blocks before it.
pub proof fn lemma_block_in_flatten(bs: Seq<Seq<u8>>, k: int)
    requires
        0 <= k < bs.len(),
    ensures
        bs.take(k).flatten().len() + bs[k].len() <= bs.flatten().len(),
        bs.flatten().subrange(
            bs.take(k).flatten().len() as int,
            (bs.take(k).flatten().len() + bs[k].len()) as int,
        ) == bs[k],
        bs.take(k + 1).flatten() == bs.take(k).flatten() + bs[k],
{
    let head = bs.take(k);
    let tail = bs.skip(k);
    assert(head + tail =~= bs);
    vstd::seq_lib::lemma_flatten_concat(head, tail);
    assert(tail.first() == bs[k]);
    assert(tail.drop_first() =~= bs.skip(k + 1));
    assert(tail.flatten() == bs[k] + bs.skip(k + 1).flatten());
    assert(bs.take(k + 1) =~= head.push(bs[k]));
    head.lemma_flatten_push(bs[k]);
    assert(bs.flatten().subrange(head.flatten().len() as int, (head.flatten().len() + bs[k].len()) as int) =~= bs[k]);
}

/// Between two BACK7s the count of BACK7s grows.
pub proof fn lemma_back7_rank(code: Seq<u8>, x: int, y: int)
    requires
        0 <= x < y <= code.len(),
        code[x] == BACK7_BYTE,
    ensures
        count(code.take(x), BACK7_BYTE) < count(code.take(y), BACK7_BYTE),
{
    assert(code.take(x + 1).drop_last() =~= code.take(x));
    lemma_count_prefix(code, x + 1, y, BACK7_BYTE);
}

/// Counting one more element of `s`.
pub proof fn lemma_count_step(s: Seq<u8>, q: int, b: u8)
    requires
        0 <= q < s.len(),
    ensures
        count(s.take(q + 1), b) == count(s.take(q), b) + if s[q] == b { 1nat } else { 0nat },
{
    assert(s.take(q + 1).drop_last() =~= s.take(q));
}

/// The last extended element is the last instruction.
pub proof fn lemma_extended_last(code: Seq<u8>)
    requires
        code.len() > 0,
    ensures
        extended(code).len() > 0,
        extended(code).last() == code.last(),
{
}

/// The basic blocks, concatenated and with their SPILL markers dropped, give
/// back the program. In a well-formed program every run of blocks from the
/// first holds at least as many SPILL-terminated blocks as BACK7-terminated
/// ones: each BACK7-terminated block has its own SPILL-terminated block
/// earlier in the list.
pub proof fn lemma_partition_fidelity(code: Seq<u8>)
    requires
        all_external(code),
    ensures
        basic_blocks(code).flatten().filter(|b: u8| b != SPILL_BYTE) == code,
        well_formed_code(code) ==> forall|k: int|
            0 <= k <= basic_blocks(code).len() ==> #[trigger] blocks_ending_with(
                basic_blocks(code).take(k),
                BACK7_BYTE,
            ) <= blocks_ending_with(basic_blocks(code).take(k), SPILL_BYTE),
{
    let ext = extended(code);
    let bs = basic_blocks(code);
    lemma_partition_shape(ext);
    lemma_extend_prefix(code, code.len() as int);
    assert(code.take(code.len() as int) =~= code);
    if well_formed_code(code) {
        assert forall|k: int| 0 <= k <= bs.len() implies #[trigger] blocks_ending_with(bs.take(k), BACK7_BYTE)
            <= blocks_ending_with(bs.take(k), SPILL_BYTE) by {
            let head = bs.take(k);
            let tail = bs.skip(k);
            assert(head + tail =~= bs);
            vstd::seq_lib::lemma_flatten_concat(head, tail);
            let q = head.flatten().len() as int;
            assert(ext.take(q) =~= head.flatten());
            assert forall|i: int| 0 <= i < head.len() implies shaped(#[trigger] head[i]) by {
                assert(head[i] == bs[i]);
            }
            lemma_count_blocks(head, BACK7_BYTE);
            lemma_count_blocks(head, SPILL_BYTE);
            lemma_markers_lead(code, code.len() as int, q);
        }
    }
}

} // verus!
