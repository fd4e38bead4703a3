//! Programs: the binary file format, well-formedness, and the basic-block
//! partition that the native translator consumes.

use vstd::prelude::*;
use crate::opcode::{decode, is_external_byte, BACK7_BYTE, HALT_BYTE, SPILL_BYTE};

verus! {

/// Number of header bytes: the initial accumulator, then the initial loop
/// counter, each a little-endian signed 32-bit integer.
pub const HEADER_LEN: usize = 8;

/// Distance from a BACK7 back to the loop header it returns to: a BACK7 at
/// position `i` continues at `i - 6`, seven places back from the instruction
/// after it.
pub const LOOP_SPAN: usize = 6;

/// An immutable instruction sequence with the initial register values.
#[derive(Debug, Clone)]
pub struct Program {
    pub data: Vec<u8>,
    pub initial_acc: i32,
    pub initial_lc: i32,
    pub filename: Option<String>,
}

/// Why a byte string is not a program.
#[derive(Debug, Clone, Copy, PartialEq, Eq, Structural)]
pub enum FormatError {
    /// Fewer bytes than the header needs.
    TooShort,
    /// The code byte at `position` (counted from the first code byte) is not
    /// an external opcode.
    InvalidOpcode { position: usize, byte: u8 },
}

/// The unsigned value of four little-endian bytes.
pub open spec fn le_u32(b0: u8, b1: u8, b2: u8, b3: u8) -> int {
    b0 as int + 256 * (b1 as int) + 65536 * (b2 as int) + 16777216 * (b3 as int)
}

/// The two's-complement value of four little-endian bytes.
pub open spec fn le_i32(b0: u8, b1: u8, b2: u8, b3: u8) -> i32 {
    let u = le_u32(b0, b1, b2, b3);
    if u >= 0x8000_0000 {
        (u - 0x1_0000_0000) as i32
    } else {
        u as i32
    }
}

/// The signed integer stored little-endian at `at` in `bytes`.
pub open spec fn le_i32_at(bytes: Seq<u8>, at: int) -> i32 {
    le_i32(bytes[at], bytes[at + 1], bytes[at + 2], bytes[at + 3])
}

/// Relies on byteorder's `LittleEndian::read_i32`, which reads the first four
/// bytes of `buf` as a little-endian two's-complement integer and panics on a
/// shorter buffer.
#[verifier::external_body]
fn read_le_i32(buf: &[u8]) -> (r: i32)
    requires
        buf@.len() >= 4,
    ensures
        r == le_i32_at(buf@, 0),
{
    <byteorder::LittleEndian as byteorder::ByteOrder>::read_i32(buf)
}

/// Whether every byte of `code` is an external opcode.
pub open spec fn all_external(code: Seq<u8>) -> bool {
    forall|i: int| 0 <= i < code.len() ==> is_external_byte(#[trigger] code[i])
}

/// The index of the first byte of `code` that is not an external opcode.
pub open spec fn first_invalid(code: Seq<u8>, i: int) -> bool {
    0 <= i < code.len() && !is_external_byte(code[i]) && all_external(code.take(i))
}

/// A program both backends run alike: it ends with its only HALT, every BACK7
/// has a whole loop body before it, and the instruction pointer fits in 32 bits.
pub open spec fn well_formed_code(code: Seq<u8>) -> bool {
    &&& 0 < code.len() <= u32::MAX
    &&& all_external(code)
    &&& code.last() == HALT_BYTE
    &&& forall|i: int| 0 <= i < code.len() - 1 ==> #[trigger] code[i] != HALT_BYTE
    &&& forall|i: int| 0 <= i < code.len() && #[trigger] code[i] == BACK7_BYTE ==> i >= LOOP_SPAN
}

/// Whether a SPILL marker goes right before the instruction at `m`: the loop
/// closed by a BACK7 six places further on starts there.
pub open spec fn opens_loop(code: Seq<u8>, m: int) -> bool {
    0 <= m && m + 6 < code.len() && code[m + 6] == BACK7_BYTE
}

/// The first `m` instructions with their SPILL markers.
pub open spec fn extend_prefix(code: Seq<u8>, m: int) -> Seq<u8>
    decreases m,
{
    if m <= 0 {
        seq![]
    } else if opens_loop(code, m - 1) {
        extend_prefix(code, m - 1).push(SPILL_BYTE).push(code[m - 1])
    } else {
        extend_prefix(code, m - 1).push(code[m - 1])
    }
}

/// The program with a SPILL marker before each loop header.
pub open spec fn extended(code: Seq<u8>) -> Seq<u8> {
    extend_prefix(code, code.len() as int)
}

/// Whether `b` ends a basic block.
pub open spec fn ends_block(b: u8) -> bool {
    b == BACK7_BYTE || b == SPILL_BYTE
}

/// The closed blocks of `s` and the open block after them.
pub open spec fn split(s: Seq<u8>) -> (Seq<Seq<u8>>, Seq<u8>)
    decreases s.len(),
{
    if s.len() == 0 {
        (seq![], seq![])
    } else {
        let (closed, open) = split(s.drop_last());
        let cur = open.push(s.last());
        if ends_block(s.last()) {
            (closed.push(cur), seq![])
        } else {
            (closed, cur)
        }
    }
}

/// `s` cut after every BACK7 and SPILL; the trailing block always comes last.
pub open spec fn partition(s: Seq<u8>) -> Seq<Seq<u8>> {
    split(s).0.push(split(s).1)
}

/// The basic blocks of a program.
pub open spec fn basic_blocks(code: Seq<u8>) -> Seq<Seq<u8>> {
    partition(extended(code))
}

/// The views of a list of byte vectors.
pub open spec fn views(v: Seq<Vec<u8>>) -> Seq<Seq<u8>> {
    v.map_values(|b: Vec<u8>| b@)
}

/// The program with a SPILL marker inserted before each loop header.
pub fn insert_spills(code: &Vec<u8>) -> (r: Vec<u8>)
    ensures
        r@ == extended(code@),
{
    let n = code.len();
    let mut out: Vec<u8> = Vec::new();
    let mut m: usize = 0;
    while m < n
        invariant
            n == code@.len(),
            m <= n,
            out@ == extend_prefix(code@, m as int),
        decreases n - m,
    {
        if n > LOOP_SPAN && m < n - LOOP_SPAN && code[m + LOOP_SPAN] == BACK7_BYTE {
            out.push(SPILL_BYTE);
        }
        out.push(code[m]);
        m = m + 1;
    }
    out
}

/// Cuts a sequence after every BACK7 and SPILL.
pub fn split_blocks(s: &Vec<u8>) -> (r: Vec<Vec<u8>>)
    ensures
        views(r@) == partition(s@),
{
    let mut blocks: Vec<Vec<u8>> = Vec::new();
    let mut current: Vec<u8> = Vec::new();
    let mut i: usize = 0;
    while i < s.len()
        invariant
            i <= s@.len(),
            views(blocks@) == split(s@.take(i as int)).0,
            current@ == split(s@.take(i as int)).1,
        decreases s@.len() - i,
    {
        let b = s[i];
        current.push(b);
        proof {
            assert(s@.take(i + 1).drop_last() =~= s@.take(i as int));
        }
        if b == BACK7_BYTE || b == SPILL_BYTE {
            blocks.push(current);
            current = Vec::new();
            proof {
                assert(views(blocks@) =~= split(s@.take(i + 1)).0);
            }
        }
        i = i + 1;
    }
    assert(s@.take(s@.len() as int) =~= s@);
    blocks.push(current);
    assert(views(blocks@) =~= partition(s@));
    blocks
}

impl Program {
    pub fn new(data: Vec<u8>, initial_acc: i32, initial_lc: i32) -> (r: Program)
        ensures
            r.data@ == data@,
            r.initial_acc == initial_acc,
            r.initial_lc == initial_lc,
            r.filename.is_none(),
    {
        Program { data, initial_acc, initial_lc, filename: None }
    }

    /// Reads a program from its binary form: an 8-byte header, then one byte
    /// per instruction.
    pub fn load(bytes: &[u8]) -> (r: Result<Program, FormatError>)
        ensures
            bytes@.len() < HEADER_LEN ==> r == Err::<Program, FormatError>(FormatError::TooShort),
            bytes@.len() >= HEADER_LEN ==> match r {
                Ok(p) => {
                    &&& all_external(bytes@.skip(8))
                    &&& p.data@ == bytes@.skip(8)
                    &&& p.initial_acc == le_i32_at(bytes@, 0)
                    &&& p.initial_lc == le_i32_at(bytes@, 4)
                    &&& p.filename.is_none()
                },
                Err(FormatError::InvalidOpcode { position, byte }) => {
                    &&& first_invalid(bytes@.skip(8), position as int)
                    &&& byte == bytes@[8 + position]
                },
                Err(FormatError::TooShort) => false,
            },
    {
        if bytes.len() < HEADER_LEN {
            return Err(FormatError::TooShort);
        }
        let acc_bytes: Vec<u8> = vec![bytes[0], bytes[1], bytes[2], bytes[3]];
        let lc_bytes: Vec<u8> = vec![bytes[4], bytes[5], bytes[6], bytes[7]];
        let initial_acc = read_le_i32(acc_bytes.as_slice());
        let initial_lc = read_le_i32(lc_bytes.as_slice());
        let mut data: Vec<u8> = Vec::new();
        let mut i: usize = HEADER_LEN;
        while i < bytes.len()
            invariant
                HEADER_LEN <= i <= bytes@.len(),
                data@ == bytes@.subrange(8, i as int),
                all_external(data@),
            decreases bytes@.len() - i,
        {
            let b = bytes[i];
            match decode(b) {
                Ok(_) => {},
                Err(_) => {
                    assert(data@ =~= bytes@.skip(8).take(i - 8));
                    return Err(FormatError::InvalidOpcode { position: i - HEADER_LEN, byte: b });
                },
            }
            data.push(b);
            assert(data@ =~= bytes@.subrange(8, i + 1));
            i = i + 1;
        }
        assert(data@ =~= bytes@.skip(8));
        Ok(Program { data, initial_acc, initial_lc, filename: None })
    }

    /// Whether both backends are owed the same result on this program.
    pub fn is_well_formed(&self) -> (r: bool)
        ensures
            r == well_formed_code(self.data@),
    {
        let n = self.data.len();
        if n == 0 || n > u32::MAX as usize || self.data[n - 1] != HALT_BYTE {
            return false;
        }
        let mut i: usize = 0;
        while i < n
            invariant
                n == self.data@.len(),
                0 < n <= u32::MAX,
                self.data@.last() == HALT_BYTE,
                i <= n,
                forall|j: int| 0 <= j < i ==> is_external_byte(#[trigger] self.data@[j]),
                forall|j: int| 0 <= j < i && j < n - 1 ==> #[trigger] self.data@[j] != HALT_BYTE,
                forall|j: int| 0 <= j < i && #[trigger] self.data@[j] == BACK7_BYTE ==> j >= LOOP_SPAN,
            decreases n - i,
        {
            let b = self.data[i];
            if b > BACK7_BYTE || (b == HALT_BYTE && i < n - 1) || (b == BACK7_BYTE && i < LOOP_SPAN) {
                return false;
            }
            i = i + 1;
        }
        true
    }

    /// The basic blocks: a SPILL marker goes before each loop header, then
    /// the sequence is cut after every BACK7 and SPILL.
    pub fn build_basic_blocks(&self) -> (r: Vec<Vec<u8>>)
        ensures
            views(r@) == basic_blocks(self.data@),
    {
        let extended = insert_spills(&self.data);
        split_blocks(&extended)
    }
}

} // verus!
