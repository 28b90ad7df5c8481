use vstd::prelude::*;

use crate::cpu::Cpu;
use crate::ops::{
    Op, is_jump_op, lemma_tokens_single, lemma_wm_jnz, lemma_wm_jz, shape, shapes, tokens,
    well_matched,
};

verus! {

// AArch64 instructions. During the generated code x0 holds the address of the
// current cell and w8 is scratch.
/// ldrb w8, [x0]
pub const LDRB_W8: u32 = 0x39400008;

/// strb w8, [x0]
pub const STRB_W8: u32 = 0x39000008;

/// add w8, w8, #imm (imm in bits 10..)
pub const ADD_W8: u32 = 0x11000108;

/// sub w8, w8, #imm
pub const SUB_W8: u32 = 0x51000108;

/// sub x0, x0, #imm
pub const SUB_X0: u32 = 0xd1000000;

/// add x0, x0, #imm
pub const ADD_X0: u32 = 0x91000000;

/// cbz w8, <label> (word offset in bits 5..24)
pub const CBZ_W8: u32 = 0x34000008;

/// cbnz w8, <label>
pub const CBNZ_W8: u32 = 0x35000008;

/// ret
pub const RET: u32 = 0xd65f03c0;

/// Largest distance in bytes that a branch may span.
pub const MAX_BRANCH: i64 = 0x40000;

/// A branch whose displacement is filled in once every instruction's
/// address is known.
pub struct Backpatch {
    /// Where the branch instruction's word starts.
    pub operand_byte_addr: usize,
    /// The address the displacement is counted from.
    pub src_byte_addr: usize,
    /// The instruction whose code the branch goes to.
    pub dst_op_index: usize,
    /// The jump this branch was emitted for (its operand is `dst_op_index`).
    pub origin: Op,
}

// ---------------------------------------------------------------------------
// What the generated code is
// ---------------------------------------------------------------------------

/// The four bytes of a word, least significant first.
pub open spec fn le32(w: u32) -> Seq<u8> {
    seq![
        (w & 0xff) as u8,
        ((w >> 8u32) & 0xff) as u8,
        ((w >> 16u32) & 0xff) as u8,
        ((w >> 24u32) & 0xff) as u8,
    ]
}

/// The bytes of a sequence of instruction words.
pub open spec fn words(ws: Seq<u32>) -> Seq<u8>
    decreases ws.len(),
{
    if ws.len() == 0 {
        Seq::empty()
    } else {
        words(ws.drop_last()) + le32(ws.last())
    }
}

/// `ws` written `n` times.
pub open spec fn repeat(ws: Seq<u32>, n: nat) -> Seq<u32>
    decreases n,
{
    if n == 0 {
        Seq::empty()
    } else {
        repeat(ws, (n - 1) as nat) + ws
    }
}

/// Writes the current cell to standard output (write(1, x0, 1) on macOS).
pub open spec fn out_words() -> Seq<u32> {
    seq![
        0xaa0003e1u32,  // mov x1, x0
        0xaa0003e4u32,  // mov x4, x0
        0xd2800020u32,  // mov x0, #1
        0xd2800022u32,  // mov x2, #1
        0xd2800090u32,  // mov x16, #4
        0xd4000001u32,  // svc 0
        0xaa0403e0u32,  // mov x0, x4
    ]
}

/// Reads a byte from standard input into the current cell, storing 0 when
/// the read returns nothing (read(0, x0, 1) on macOS).
pub open spec fn in_words() -> Seq<u32> {
    seq![
        0xaa0003e4u32,  // mov x4, x0
        0xaa0003e1u32,  // mov x1, x0
        0xd2800000u32,  // mov x0, #0
        0xd2800022u32,  // mov x2, #1
        0xd2800070u32,  // mov x16, #3
        0xd4000001u32,  // svc 0
        0xb5000060u32,  // cbnz x0, read_ok
        0x52800008u32,  // mov w8, #0
        0x39000088u32,  // strb w8, [x4]
        0xaa0403e0u32,  // read_ok: mov x0, x4
    ]
}

/// An 8-bit operand in the immediate field of an add or sub.
pub open spec fn imm8(n: u32) -> u32 {
    (n & 0xff) << 10u32
}

/// The words that an instruction compiles to, with `branch` in the
/// displacement field of a jump's branch.
pub open spec fn op_words(op: Op, branch: u32) -> Seq<u32> {
    match op {
        Op::Inc(n) => seq![LDRB_W8, ADD_W8 | imm8(n), STRB_W8],
        Op::Dec(n) => seq![LDRB_W8, SUB_W8 | imm8(n), STRB_W8],
        Op::Left(n) => seq![SUB_X0 | imm8(n)],
        Op::Right(n) => seq![ADD_X0 | imm8(n)],
        Op::Out(n) => repeat(out_words(), n as nat),
        Op::In(n) => repeat(in_words(), n as nat),
        Op::Jz(_) => seq![LDRB_W8, CBZ_W8 | branch],
        Op::Jnz(_) => seq![LDRB_W8, CBNZ_W8 | branch],
    }
}

/// Length in bytes of an instruction's code.
pub open spec fn block_len(op: Op) -> int {
    match op {
        Op::Inc(_) => 12,
        Op::Dec(_) => 12,
        Op::Left(_) => 4,
        Op::Right(_) => 4,
        Op::Out(n) => 28 * n,
        Op::In(n) => 40 * n,
        Op::Jz(_) => 8,
        Op::Jnz(_) => 8,
    }
}

/// Where the code of instruction `k` starts.
pub open spec fn addr(ops: Seq<Op>, k: int) -> int
    decreases k,
{
    if k <= 0 {
        0
    } else {
        addr(ops, k - 1) + block_len(ops[k - 1])
    }
}

/// The jump target of a jump instruction.
pub open spec fn target(op: Op) -> int {
    match op {
        Op::Jz(n) => n as int,
        Op::Jnz(n) => n as int,
        _ => 0,
    }
}

/// Distance in bytes from the branch of jump `k` to the code of the
/// instruction after its target.
pub open spec fn branch_offset(ops: Seq<Op>, k: int) -> int {
    addr(ops, target(ops[k]) + 1) - (addr(ops, k) + 4)
}

/// The displacement field of a branch spanning `offset` bytes: the offset in
/// words, as a 19-bit two's complement number, in bits 5 to 23.
pub open spec fn branch_field(offset: int) -> u32 {
    (((offset / 4) % 0x80000) * 32) as u32
}

pub open spec fn branch_for(ops: Seq<Op>, k: int) -> u32 {
    if is_jump_op(ops[k]) {
        branch_field(branch_offset(ops, k))
    } else {
        0
    }
}

/// The bytes of instruction `k`, its branch displacement filled in or not.
pub open spec fn block(ops: Seq<Op>, k: int, patched: bool) -> Seq<u8> {
    words(
        op_words(
            ops[k],
            if patched {
                branch_for(ops, k)
            } else {
                0
            },
        ),
    )
}

/// The code of the first `m` instructions.
pub open spec fn code(ops: Seq<Op>, m: int) -> Seq<u8>
    decreases m,
{
    if m <= 0 {
        Seq::empty()
    } else {
        code(ops, m - 1) + block(ops, m - 1, true)
    }
}

/// The machine code of a program: the code of each instruction in turn, then
/// a return. Called with x0 pointing at the first cell.
pub open spec fn jit_code(ops: Seq<Op>) -> Seq<u8> {
    code(ops, ops.len() as int) + le32(RET)
}

/// Whether instruction `k` can be compiled: moves by less than 256 cells,
/// jumps that stay in the program and within `MAX_BRANCH` bytes.
pub open spec fn jit_op_ok(ops: Seq<Op>, k: int) -> bool {
    match ops[k] {
        Op::Left(n) => n < 256,
        Op::Right(n) => n < 256,
        Op::Jz(n) => n + 1 <= ops.len() && -MAX_BRANCH <= branch_offset(ops, k) <= MAX_BRANCH,
        Op::Jnz(n) => n + 1 <= ops.len() && -MAX_BRANCH <= branch_offset(ops, k) <= MAX_BRANCH,
        _ => true,
    }
}

/// The programs that can be compiled (the code must also fit in memory).
pub open spec fn jit_ok(ops: Seq<Op>) -> bool {
    &&& forall|k: int| 0 <= k < ops.len() ==> #[trigger] jit_op_ok(ops, k)
    &&& addr(ops, ops.len() as int) + 4 <= isize::MAX
}

// ---------------------------------------------------------------------------
// Lemmas on the layout
// ---------------------------------------------------------------------------

proof fn lemma_words_push(ws: Seq<u32>, w: u32)
    ensures
        words(ws.push(w)) == words(ws) + le32(w),
{
    assert(ws.push(w).drop_last() =~= ws);
}

proof fn lemma_words_concat(a: Seq<u32>, b: Seq<u32>)
    ensures
        words(a + b) == words(a) + words(b),
    decreases b.len(),
{
    if b.len() == 0 {
        assert(a + b =~= a);
        assert(words(a) + words(b) =~= words(a));
    } else {
        lemma_words_concat(a, b.drop_last());
        assert((a + b).drop_last() =~= a + b.drop_last());
        assert(words(a + b) == words(a + b.drop_last()) + le32(b.last()));
        assert(words(a) + words(b) =~= words(a) + words(b.drop_last()) + le32(b.last()));
    }
}

proof fn lemma_words_len(ws: Seq<u32>)
    ensures
        words(ws).len() == 4 * ws.len(),
    decreases ws.len(),
{
    if ws.len() > 0 {
        lemma_words_len(ws.drop_last());
    }
}

proof fn lemma_repeat_len(ws: Seq<u32>, n: nat)
    ensures
        repeat(ws, n).len() == ws.len() * n,
    decreases n,
{
    if n == 0 {
        assert(ws.len() * n == 0) by (nonlinear_arith)
            requires
                n == 0,
        ;
    } else {
        lemma_repeat_len(ws, (n - 1) as nat);
        let m = (n - 1) as nat;
        assert(repeat(ws, n).len() == repeat(ws, m).len() + ws.len());
        let l = ws.len();
        assert(l * n == l * m + l) by (nonlinear_arith)
            requires
                n == m + 1,
        ;
    }
}

proof fn lemma_block_len(ops: Seq<Op>, k: int, patched: bool)
    requires
        0 <= k < ops.len(),
    ensures
        block(ops, k, patched).len() == block_len(ops[k]),
        block_len(ops[k]) >= 0,
        block_len(ops[k]) % 4 == 0,
{
    let br = if patched {
        branch_for(ops, k)
    } else {
        0
    };
    lemma_words_len(op_words(ops[k], br));
    match ops[k] {
        Op::Out(n) => {
            lemma_repeat_len(out_words(), n as nat);
            assert(out_words().len() == 7);
            assert(ops[k] == Op::Out(n));
            assert(op_words(ops[k], br).len() == 7 * n);
            assert(block_len(Op::Out(n)) == 28 * n);
            assert(block_len(ops[k]) == 4 * (7 * n));
            assert((28 * n) % 4 == 0) by (nonlinear_arith);
        },
        Op::In(n) => {
            lemma_repeat_len(in_words(), n as nat);
            assert(in_words().len() == 10);
            assert(ops[k] == Op::In(n));
            assert(op_words(ops[k], br).len() == 10 * n);
            assert(block_len(Op::In(n)) == 40 * n);
            assert(block_len(ops[k]) == 4 * (10 * n));
            assert((40 * n) % 4 == 0) by (nonlinear_arith);
        },
        _ => {},
    }
}

proof fn lemma_addr_mono(ops: Seq<Op>, a: int, b: int)
    requires
        0 <= a <= b <= ops.len(),
    ensures
        addr(ops, a) <= addr(ops, b),
        addr(ops, b) % 4 == 0,
    decreases b,
{
    if b > 0 {
        lemma_block_len(ops, b - 1, true);
        if a < b {
            lemma_addr_mono(ops, a, b - 1);
        } else {
            lemma_addr_mono(ops, 0, b - 1);
        }
    }
}

/// A byte sequence that holds, at the address of each of the first `m`
/// instructions, that instruction's code starts with the code of those
/// instructions.
proof fn lemma_blocks_code(ops: Seq<Op>, mem: Seq<u8>, m: int)
    requires
        0 <= m <= ops.len(),
        mem.len() >= addr(ops, m),
        forall|k: int|
            0 <= k < m ==> #[trigger] mem.subrange(addr(ops, k), addr(ops, k + 1)) == block(
                ops,
                k,
                true,
            ),
    ensures
        mem.take(addr(ops, m)) == code(ops, m),
    decreases m,
{
    if m == 0 {
        assert(mem.take(0) =~= Seq::<u8>::empty());
    } else {
        lemma_addr_mono(ops, m - 1, m);
        lemma_addr_mono(ops, 0, m - 1);
        lemma_blocks_code(ops, mem, m - 1);
        let k = m - 1;
        assert(mem.subrange(addr(ops, k), addr(ops, k + 1)) == block(ops, k, true));
        assert(k + 1 == m);
        assert(mem.take(addr(ops, m)) =~= mem.take(addr(ops, m - 1)) + mem.subrange(
            addr(ops, m - 1),
            addr(ops, m),
        ));
    }
}

/// The bytes of a word OR-ed with the bytes of another are the bytes of the
/// OR of the words.
proof fn lemma_le32_or(w: u32, p: u32)
    ensures
        le32(w | p) == seq![
            le32(w)[0] | le32(p)[0],
            le32(w)[1] | le32(p)[1],
            le32(w)[2] | le32(p)[2],
            le32(w)[3] | le32(p)[3],
        ],
{
    assert(((w | p) & 0xff) as u8 == ((w & 0xff) as u8 | (p & 0xff) as u8)) by (bit_vector);
    assert((((w | p) >> 8u32) & 0xff) as u8 == (((w >> 8u32) & 0xff) as u8 | ((p >> 8u32) & 0xff)
        as u8)) by (bit_vector);
    assert((((w | p) >> 16u32) & 0xff) as u8 == (((w >> 16u32) & 0xff) as u8 | ((p >> 16u32)
        & 0xff) as u8)) by (bit_vector);
    assert((((w | p) >> 24u32) & 0xff) as u8 == (((w >> 24u32) & 0xff) as u8 | ((p >> 24u32)
        & 0xff) as u8)) by (bit_vector);
    assert(le32(w | p) =~= seq![
        le32(w)[0] | le32(p)[0],
        le32(w)[1] | le32(p)[1],
        le32(w)[2] | le32(p)[2],
        le32(w)[3] | le32(p)[3],
    ]);
}

// ---------------------------------------------------------------------------
// Emitting code
// ---------------------------------------------------------------------------

/// Appends a word, least significant byte first.
pub fn push_u32(buffer: &mut Vec<u8>, bytes: u32)
    ensures
        final(buffer)@ == old(buffer)@ + le32(bytes),
{
    let ghost start = buffer@;
    let mut b = bytes;
    let mut i: u32 = 0;
    while i < 4
        invariant
            i <= 4,
            buffer@ == start + le32(bytes).take(i as int),
            i == 0 ==> b == bytes,
            i == 1 ==> b == bytes >> 8u32,
            i == 2 ==> b == bytes >> 16u32,
            i == 3 ==> b == bytes >> 24u32,
        decreases 4 - i,
    {
        buffer.push((b & 0xff) as u8);
        proof {
            assert(le32(bytes).take(i as int + 1) =~= le32(bytes).take(i as int).push(
                (b & 0xff) as u8,
            ));
            if i == 0 {
                assert(b >> 8u32 == bytes >> 8u32);
            } else if i == 1 {
                assert((bytes >> 8u32) >> 8u32 == bytes >> 16u32) by (bit_vector);
            } else if i == 2 {
                assert((bytes >> 16u32) >> 8u32 == bytes >> 24u32) by (bit_vector);
            }
        }
        b = b >> 8;
        i += 1;
    }
    proof {
        assert(le32(bytes).take(4) =~= le32(bytes));
    }
}

impl Op {
    /// Adds `operand` to the current cell (mod 256).
    pub fn inc(buffer: &mut Vec<u8>, operand: u32)
        ensures
            final(buffer)@ == old(buffer)@ + words(op_words(Op::Inc(operand), 0)),
    {
        push_u32(buffer, LDRB_W8);
        push_u32(buffer, ADD_W8 | (operand & 0xFF) << 10);
        push_u32(buffer, STRB_W8);
        proof {
            lemma_words3(LDRB_W8, ADD_W8 | imm8(operand), STRB_W8);
            assert(final(buffer)@ =~= old(buffer)@ + words(op_words(Op::Inc(operand), 0)));
        }
    }

    /// Subtracts `operand` from the current cell (mod 256).
    pub fn dec(buffer: &mut Vec<u8>, operand: u32)
        ensures
            final(buffer)@ == old(buffer)@ + words(op_words(Op::Dec(operand), 0)),
    {
        push_u32(buffer, LDRB_W8);
        push_u32(buffer, SUB_W8 | (operand & 0xFF) << 10);
        push_u32(buffer, STRB_W8);
        proof {
            lemma_words3(LDRB_W8, SUB_W8 | imm8(operand), STRB_W8);
            assert(final(buffer)@ =~= old(buffer)@ + words(op_words(Op::Dec(operand), 0)));
        }
    }

    /// Moves the cell address down by `operand`, which must be below 256.
    pub fn left(buffer: &mut Vec<u8>, operand: u32)
        requires
            operand < 256,
        ensures
            final(buffer)@ == old(buffer)@ + words(op_words(Op::Left(operand), 0)),
    {
        let sub_op = SUB_X0 | (operand & 0xFF) << 10;
        push_u32(buffer, sub_op);
        proof {
            lemma_words_push(Seq::empty(), sub_op);
            assert(seq![sub_op] =~= Seq::<u32>::empty().push(sub_op));
            assert(final(buffer)@ =~= old(buffer)@ + words(op_words(Op::Left(operand), 0)));
        }
    }

    /// Moves the cell address up by `operand`, which must be below 256.
    pub fn right(buffer: &mut Vec<u8>, operand: u32)
        requires
            operand < 256,
        ensures
            final(buffer)@ == old(buffer)@ + words(op_words(Op::Right(operand), 0)),
    {
        let add_op = ADD_X0 | (operand & 0xFF) << 10;
        push_u32(buffer, add_op);
        proof {
            lemma_words_push(Seq::empty(), add_op);
            assert(seq![add_op] =~= Seq::<u32>::empty().push(add_op));
            assert(final(buffer)@ =~= old(buffer)@ + words(op_words(Op::Right(operand), 0)));
        }
    }

    /// Writes the current cell to standard output.
    pub fn out(buffer: &mut Vec<u8>)
        ensures
            final(buffer)@ == old(buffer)@ + words(out_words()),
    {
        let ghost start = buffer@;
        let ghost ws = out_words();
        proof {
            assert(ws.take(0) =~= Seq::<u32>::empty());
            assert(buffer@ =~= start + words(ws.take(0)));
        }
        push_u32(buffer, 0xaa0003e1);  // mov x1, x0
        proof {
            lemma_words_take_step(ws, 0);
        }
        push_u32(buffer, 0xaa0003e4);  // mov x4, x0
        proof {
            lemma_words_take_step(ws, 1);
        }
        push_u32(buffer, 0xd2800020);  // mov x0, #1
        proof {
            lemma_words_take_step(ws, 2);
        }
        push_u32(buffer, 0xd2800022);  // mov x2, #1
        proof {
            lemma_words_take_step(ws, 3);
        }
        push_u32(buffer, 0xd2800090);  // mov x16, #4
        proof {
            lemma_words_take_step(ws, 4);
        }
        push_u32(buffer, 0xd4000001);  // svc 0
        proof {
            lemma_words_take_step(ws, 5);
        }
        push_u32(buffer, 0xaa0403e0);  // mov x0, x4
        proof {
            lemma_words_take_step(ws, 6);
        }
        proof {
            assert(ws.take(7) =~= ws);
        }
    }

    /// Reads a byte from standard input into the current cell (0 at the end
    /// of the input).
    pub fn inp(buffer: &mut Vec<u8>)
        ensures
            final(buffer)@ == old(buffer)@ + words(in_words()),
    {
        let ghost start = buffer@;
        let ghost ws = in_words();
        proof {
            assert(ws.take(0) =~= Seq::<u32>::empty());
            assert(buffer@ =~= start + words(ws.take(0)));
        }
        push_u32(buffer, 0xaa0003e4);  // mov x4, x0
        proof {
            lemma_words_take_step(ws, 0);
        }
        push_u32(buffer, 0xaa0003e1);  // mov x1, x0
        proof {
            lemma_words_take_step(ws, 1);
        }
        push_u32(buffer, 0xd2800000);  // mov x0, #0
        proof {
            lemma_words_take_step(ws, 2);
        }
        push_u32(buffer, 0xd2800022);  // mov x2, #1
        proof {
            lemma_words_take_step(ws, 3);
        }
        push_u32(buffer, 0xd2800070);  // mov x16, #3
        proof {
            lemma_words_take_step(ws, 4);
        }
        push_u32(buffer, 0xd4000001);  // svc 0
        proof {
            lemma_words_take_step(ws, 5);
        }
        push_u32(buffer, 0xb5000060);  // cbnz x0, read_ok
        proof {
            lemma_words_take_step(ws, 6);
        }
        push_u32(buffer, 0x52800008);  // mov w8, #0
        proof {
            lemma_words_take_step(ws, 7);
        }
        push_u32(buffer, 0x39000088);  // strb w8, [x4]
        proof {
            lemma_words_take_step(ws, 8);
        }
        push_u32(buffer, 0xaa0403e0);  // read_ok: mov x0, x4
        proof {
            lemma_words_take_step(ws, 9);
        }
        proof {
            assert(ws.take(10) =~= ws);
        }
    }

    /// Branches to instruction `operand` when the current cell is zero; the
    /// displacement is left 0 and the branch recorded for patching.
    pub fn jz(buffer: &mut Vec<u8>, operand: usize, backpatches: &mut Vec<Backpatch>)
        ensures
            final(buffer)@ == old(buffer)@ + words(op_words(Op::Jz(operand), 0)),
            final(backpatches)@ == old(backpatches)@.push(
                Backpatch {
                    operand_byte_addr: (old(buffer)@.len() + 4) as usize,
                    src_byte_addr: (old(buffer)@.len() + 4) as usize,
                    dst_op_index: operand,
                    origin: Op::Jz(operand),
                },
            ),
    {
        push_u32(buffer, LDRB_W8);
        let operand_byte_addr = buffer.len();
        let src_byte_addr = buffer.len();
        push_u32(buffer, CBZ_W8);
        let bp = Backpatch { operand_byte_addr, src_byte_addr, dst_op_index: operand, origin: Op::Jz(operand) };
        backpatches.push(bp);
        proof {
            assert(CBZ_W8 | 0 == CBZ_W8) by (bit_vector);
            lemma_words2(LDRB_W8, CBZ_W8);
            assert(final(buffer)@ =~= old(buffer)@ + words(op_words(Op::Jz(operand), 0)));
        }
    }

    /// Branches to instruction `operand` when the current cell is not zero;
    /// the displacement is left 0 and the branch recorded for patching.
    pub fn jnz(buffer: &mut Vec<u8>, operand: usize, backpatches: &mut Vec<Backpatch>)
        ensures
            final(buffer)@ == old(buffer)@ + words(op_words(Op::Jnz(operand), 0)),
            final(backpatches)@ == old(backpatches)@.push(
                Backpatch {
                    operand_byte_addr: (old(buffer)@.len() + 4) as usize,
                    src_byte_addr: (old(buffer)@.len() + 4) as usize,
                    dst_op_index: operand,
                    origin: Op::Jnz(operand),
                },
            ),
    {
        push_u32(buffer, LDRB_W8);
        let operand_byte_addr = buffer.len();
        let src_byte_addr = buffer.len();
        push_u32(buffer, CBNZ_W8);
        let bp = Backpatch { operand_byte_addr, src_byte_addr, dst_op_index: operand, origin: Op::Jnz(operand) };
        backpatches.push(bp);
        proof {
            assert(CBNZ_W8 | 0 == CBNZ_W8) by (bit_vector);
            lemma_words2(LDRB_W8, CBNZ_W8);
            assert(final(buffer)@ =~= old(buffer)@ + words(op_words(Op::Jnz(operand), 0)));
        }
    }

    /// Returns to the caller.
    pub fn ret(buffer: &mut Vec<u8>)
        ensures
            final(buffer)@ == old(buffer)@ + le32(RET),
    {
        push_u32(buffer, RET);
    }
}

proof fn lemma_words2(a: u32, b: u32)
    ensures
        words(seq![a, b]) == le32(a) + le32(b),
{
    lemma_words_push(Seq::empty(), a);
    assert(Seq::<u32>::empty().push(a) =~= seq![a]);
    assert(words(Seq::<u32>::empty()) + le32(a) =~= le32(a));
    lemma_words_push(seq![a], b);
    assert(seq![a].push(b) =~= seq![a, b]);
}

proof fn lemma_words3(a: u32, b: u32, c: u32)
    ensures
        words(seq![a, b, c]) == le32(a) + le32(b) + le32(c),
{
    lemma_words2(a, b);
    lemma_words_push(seq![a, b], c);
    assert(seq![a, b].push(c) =~= seq![a, b, c]);
}

/// The bytes of the first `k + 1` words are those of the first `k` and of word `k`.
proof fn lemma_words_take_step(ws: Seq<u32>, k: int)
    requires
        0 <= k < ws.len(),
    ensures
        words(ws.take(k + 1)) == words(ws.take(k)) + le32(ws[k]),
{
    assert(ws.take(k + 1) =~= ws.take(k).push(ws[k]));
    lemma_words_push(ws.take(k), ws[k]);
}



// ---------------------------------------------------------------------------
// Where the branches go
// ---------------------------------------------------------------------------

/// The displacement in words that a cbz/cbnz word encodes: the 19-bit two's
/// complement number in bits 5 to 23.
pub open spec fn branch_displacement(w: u32) -> int {
    let f = ((w >> 5u32) & 0x7ffff) as int;
    if f >= 0x40000 {
        f - 0x80000
    } else {
        f
    }
}

/// In the code of the first `m` instructions, instruction `k`'s code sits at
/// its address.
pub proof fn lemma_code_block(ops: Seq<Op>, m: int, k: int)
    requires
        0 <= k < m <= ops.len(),
    ensures
        code(ops, m).len() == addr(ops, m),
        code(ops, m).subrange(addr(ops, k), addr(ops, k + 1)) == block(ops, k, true),
    decreases m,
{
    lemma_code_len(ops, m - 1);
    lemma_block_len(ops, m - 1, true);
    lemma_addr_mono(ops, 0, m - 1);
    if k < m - 1 {
        lemma_code_block(ops, m - 1, k);
        lemma_addr_mono(ops, k + 1, m - 1);
        lemma_addr_mono(ops, 0, k);
        lemma_addr_mono(ops, k, k + 1);
        assert(code(ops, m).subrange(addr(ops, k), addr(ops, k + 1)) =~= code(
            ops,
            m - 1,
        ).subrange(addr(ops, k), addr(ops, k + 1)));
    } else {
        assert(code(ops, m).subrange(addr(ops, k), addr(ops, k + 1)) =~= block(ops, k, true));
    }
}

proof fn lemma_code_len(ops: Seq<Op>, m: int)
    requires
        0 <= m <= ops.len(),
    ensures
        code(ops, m).len() == addr(ops, m),
    decreases m,
{
    if m > 0 {
        lemma_code_len(ops, m - 1);
        lemma_block_len(ops, m - 1, true);
    }
}

/// Each branch of the compiled code lands on the code of the instruction
/// after its jump's target: the word at the branch of jump `k` encodes a
/// displacement that, counted from the branch, reaches that address.
pub proof fn lemma_branch_lands(ops: Seq<Op>, k: int)
    requires
        jit_ok(ops),
        0 <= k < ops.len(),
        is_jump_op(ops[k]),
    ensures
        ({
            let cb = if ops[k] is Jz {
                CBZ_W8
            } else {
                CBNZ_W8
            };
            let w = cb | branch_for(ops, k);
            &&& jit_code(ops).subrange(addr(ops, k) + 4, addr(ops, k) + 8) == le32(w)
            &&& addr(ops, k) + 4 + 4 * branch_displacement(w) == addr(ops, target(ops[k]) + 1)
        }),
{
    let cb = if ops[k] is Jz {
        CBZ_W8
    } else {
        CBNZ_W8
    };
    let w = cb | branch_for(ops, k);
    let n = ops.len() as int;
    assert(jit_op_ok(ops, k));
    lemma_code_block(ops, n, k);
    lemma_block_len(ops, k, true);
    lemma_addr_mono(ops, 0, k);
    lemma_words2(LDRB_W8, w);
    let c = code(ops, n);
    lemma_addr_mono(ops, k + 1, n);
    assert(addr(ops, k + 1) == addr(ops, k) + 8);
    assert(jit_code(ops).subrange(addr(ops, k) + 4, addr(ops, k) + 8) =~= c.subrange(
        addr(ops, k),
        addr(ops, k + 1),
    ).subrange(4, 8));
    assert(block(ops, k, true) == le32(LDRB_W8) + le32(w));
    assert((le32(LDRB_W8) + le32(w)).subrange(4, 8) =~= le32(w));
    // the displacement
    let off = branch_offset(ops, k);
    lemma_addr_mono(ops, 0, target(ops[k]) + 1);
    lemma_addr_mono(ops, target(ops[k]) + 1, n);
    lemma_addr_mono(ops, k, n);
    assert(off % 4 == 0);
    let q = off / 4;
    assert(-0x10000 <= q <= 0x10000);
    let f = q % 0x80000;
    assert(0 <= f < 0x80000);
    let fu = f as u32;
    assert(branch_for(ops, k) == (f * 32) as u32);
    assert(fu * 32 == fu << 5u32) by (bit_vector)
        requires
            fu < 0x80000,
    ;
    assert(((CBZ_W8 | (fu << 5u32)) >> 5u32) & 0x7ffff == fu) by (bit_vector)
        requires
            fu < 0x80000,
    ;
    assert(((CBNZ_W8 | (fu << 5u32)) >> 5u32) & 0x7ffff == fu) by (bit_vector)
        requires
            fu < 0x80000,
    ;
    assert(((w >> 5u32) & 0x7ffff) as int == f);
    if q >= 0 {
        assert(f == q);
    } else {
        assert(f == q + 0x80000);
    }
}


// ---------------------------------------------------------------------------
// What the generated instructions do
// ---------------------------------------------------------------------------

/// The word stored at byte address `a`, least significant byte first.
pub open spec fn word_at(code: Seq<u8>, a: int) -> u32 {
    (code[a] as u32) | ((code[a + 1] as u32) << 8u32) | ((code[a + 2] as u32) << 16u32) | ((
    code[a + 3] as u32) << 24u32)
}

/// `movz Xd, #imm`: register `rd` (64 bits) gets `imm`.
pub open spec fn is_movz_x(w: u32, rd: u32, imm: u32) -> bool {
    &&& w & 0xffe00000 == 0xd2800000
    &&& (w >> 5u32) & 0xffff == imm
    &&& w & 0x1f == rd
}

/// `movz Wd, #imm`: register `rd` (32 bits) gets `imm`.
pub open spec fn is_movz_w(w: u32, rd: u32, imm: u32) -> bool {
    &&& w & 0xffe00000 == 0x52800000
    &&& (w >> 5u32) & 0xffff == imm
    &&& w & 0x1f == rd
}

/// `mov Xd, Xm` (`orr Xd, xzr, Xm`): register `rd` gets register `rm`.
pub open spec fn is_mov_x(w: u32, rd: u32, rm: u32) -> bool {
    &&& w & 0xffe0ffe0 == 0xaa0003e0
    &&& (w >> 16u32) & 0x1f == rm
    &&& w & 0x1f == rd
}

/// `svc #imm`: a system call.
pub open spec fn is_svc(w: u32, imm: u32) -> bool {
    &&& w & 0xffe0001f == 0xd4000001
    &&& (w >> 5u32) & 0xffff == imm
}

/// `cbnz Xt, .+4*off`: skips `off` words ahead when register `rt` is not zero.
pub open spec fn is_cbnz_x(w: u32, rt: u32, off: u32) -> bool {
    &&& w & 0xff000000 == 0xb5000000
    &&& (w >> 5u32) & 0x7ffff == off
    &&& w & 0x1f == rt
}

/// `strb Wt, [Xn, #off]`: stores the low byte of register `rt` at `Xn + off`.
pub open spec fn is_strb(w: u32, rt: u32, rn: u32, off: u32) -> bool {
    &&& w & 0xffc00000 == 0x39000000
    &&& (w >> 10u32) & 0xfff == off
    &&& (w >> 5u32) & 0x1f == rn
    &&& w & 0x1f == rt
}

proof fn lemma_le32_word(w: u32)
    ensures
        word_at(le32(w), 0) == w,
{
    let b = le32(w);
    assert(((w & 0xff) as u8 as u32) | ((((w >> 8u32) & 0xff) as u8 as u32) << 8u32) | (((
    (w >> 16u32) & 0xff) as u8 as u32) << 16u32) | ((((w >> 24u32) & 0xff) as u8 as u32)
        << 24u32) == w) by (bit_vector);
}

proof fn lemma_words_index(ws: Seq<u32>, j: int)
    requires
        0 <= j < ws.len(),
    ensures
        words(ws).len() == 4 * ws.len(),
        words(ws).subrange(4 * j, 4 * j + 4) == le32(ws[j]),
    decreases ws.len(),
{
    lemma_words_len(ws);
    let p = ws.drop_last();
    lemma_words_len(p);
    if j == ws.len() - 1 {
        assert(words(ws).subrange(4 * j, 4 * j + 4) =~= le32(ws.last()));
    } else {
        lemma_words_index(p, j);
        assert(words(ws).subrange(4 * j, 4 * j + 4) =~= words(p).subrange(4 * j, 4 * j + 4));
    }
}

proof fn lemma_repeat_index(ws: Seq<u32>, n: nat, i: int, j: int)
    requires
        0 <= i < n,
        0 <= j < ws.len(),
    ensures
        repeat(ws, n)[ws.len() * i + j] == ws[j],
        ws.len() * i + j < repeat(ws, n).len(),
    decreases n,
{
    let m = (n - 1) as nat;
    lemma_repeat_len(ws, m);
    lemma_repeat_len(ws, n);
    let l = ws.len();
    assert(l * n == l * m + l) by (nonlinear_arith)
        requires
            n == m + 1,
    ;
    if i < m {
        lemma_repeat_index(ws, m, i, j);
        assert(l * i + j < l * m) by (nonlinear_arith)
            requires
                i < m,
                j < l,
                0 <= i,
        ;
    } else {
        assert(l * i == l * m);
    }
}

/// The word at the `j`-th word of instruction `k`'s code in the compiled
/// program is the `j`-th word that the instruction compiles to.
pub proof fn lemma_word_in_code(ops: Seq<Op>, k: int, j: int)
    requires
        0 <= k < ops.len(),
        0 <= j < op_words(ops[k], branch_for(ops, k)).len(),
    ensures
        word_at(jit_code(ops), addr(ops, k) + 4 * j) == op_words(ops[k], branch_for(ops, k))[j],
{
    let n = ops.len() as int;
    let ws = op_words(ops[k], branch_for(ops, k));
    lemma_code_block(ops, n, k);
    lemma_words_index(ws, j);
    lemma_block_len(ops, k, true);
    lemma_addr_mono(ops, 0, k);
    lemma_addr_mono(ops, k + 1, n);
    lemma_addr_mono(ops, k, k + 1);
    let c = jit_code(ops);
    let a = addr(ops, k) + 4 * j;
    let b = le32(ws[j]);
    assert forall|t: int| 0 <= t < 4 implies c[a + t] == b[t] by {
        assert(c[a + t] == code(ops, n)[a + t]);
        assert(code(ops, n).subrange(addr(ops, k), addr(ops, k + 1))[4 * j + t] == code(
            ops,
            n,
        )[a + t]);
        assert(words(ws).subrange(4 * j, 4 * j + 4)[t] == words(ws)[4 * j + t]);
    }
    lemma_le32_word(ws[j]);
    assert(word_at(c, a) == word_at(b, 0));
}

/// An output instruction `Out(n)` compiles to `n` system calls
/// `write(1, cell, 1)`: each saves the cell address (x0) in x4, passes it in
/// x1, puts 1 (standard output) in x0, 1 (one byte) in x2 and 4 (write) in
/// x16, calls the system, and restores x0 from x4.
pub proof fn lemma_out_writes_cell(ops: Seq<Op>, k: int, i: int)
    requires
        0 <= k < ops.len(),
        ops[k] is Out,
        0 <= i < ops[k]->Out_0,
    ensures
        ({
            let a = addr(ops, k) + 28 * i;
            let c = jit_code(ops);
            &&& is_mov_x(word_at(c, a), 1, 0)
            &&& is_mov_x(word_at(c, a + 4), 4, 0)
            &&& is_movz_x(word_at(c, a + 8), 0, 1)
            &&& is_movz_x(word_at(c, a + 12), 2, 1)
            &&& is_movz_x(word_at(c, a + 16), 16, 4)
            &&& is_svc(word_at(c, a + 20), 0)
            &&& is_mov_x(word_at(c, a + 24), 0, 4)
        }),
        block_len(ops[k]) == 28 * ops[k]->Out_0,
{
    let n = ops[k]->Out_0 as nat;
    let ws = out_words();
    assert forall|j: int| 0 <= j < 7 implies word_at(jit_code(ops), addr(ops, k) + 28 * i + 4 * j)
        == ws[j] by {
        lemma_repeat_index(ws, n, i, j);
        lemma_word_in_code(ops, k, 7 * i + j);
        assert(addr(ops, k) + 4 * (7 * i + j) == addr(ops, k) + 28 * i + 4 * j);
    }
    let a = addr(ops, k) + 28 * i;
    assert(word_at(jit_code(ops), a + 4 * 0) == ws[0]);
    assert(word_at(jit_code(ops), a + 4 * 1) == ws[1]);
    assert(word_at(jit_code(ops), a + 4 * 2) == ws[2]);
    assert(word_at(jit_code(ops), a + 4 * 3) == ws[3]);
    assert(word_at(jit_code(ops), a + 4 * 4) == ws[4]);
    assert(word_at(jit_code(ops), a + 4 * 5) == ws[5]);
    assert(word_at(jit_code(ops), a + 4 * 6) == ws[6]);
    let w0: u32 = ws[0];
    assert(w0 == 0xaa0003e1u32);
    let w1: u32 = ws[1];
    assert(w1 == 0xaa0003e4u32);
    let w2: u32 = ws[2];
    assert(w2 == 0xd2800020u32);
    let w3: u32 = ws[3];
    assert(w3 == 0xd2800022u32);
    let w4: u32 = ws[4];
    assert(w4 == 0xd2800090u32);
    let w5: u32 = ws[5];
    assert(w5 == 0xd4000001u32);
    let w6: u32 = ws[6];
    assert(w6 == 0xaa0403e0u32);
    assert(is_mov_x(w0, 1, 0) && is_mov_x(w1, 4, 0) && is_movz_x(w2, 0, 1) && is_movz_x(w3, 2, 1) && is_movz_x(w4, 16, 4) && is_svc(w5, 0) && is_mov_x(w6, 0, 4)) by (bit_vector)
        requires
            w0 == 0xaa0003e1u32,
            w1 == 0xaa0003e4u32,
            w2 == 0xd2800020u32,
            w3 == 0xd2800022u32,
            w4 == 0xd2800090u32,
            w5 == 0xd4000001u32,
            w6 == 0xaa0403e0u32,
    ;
}

/// An input instruction `In(n)` compiles to `n` system calls
/// `read(0, cell, 1)`: each saves the cell address (x0) in x4, passes it in
/// x1, puts 0 (standard input) in x0, 1 (one byte) in x2 and 3 (read) in
/// x16, calls the system; when the call returns a non-zero count it skips
/// the next two instructions, so the byte read stays in the cell, and
/// otherwise (end of input) it stores 0 in the cell; then x0 is restored.
pub proof fn lemma_in_reads_cell(ops: Seq<Op>, k: int, i: int)
    requires
        0 <= k < ops.len(),
        ops[k] is In,
        0 <= i < ops[k]->In_0,
    ensures
        ({
            let a = addr(ops, k) + 40 * i;
            let c = jit_code(ops);
            &&& is_mov_x(word_at(c, a), 4, 0)
            &&& is_mov_x(word_at(c, a + 4), 1, 0)
            &&& is_movz_x(word_at(c, a + 8), 0, 0)
            &&& is_movz_x(word_at(c, a + 12), 2, 1)
            &&& is_movz_x(word_at(c, a + 16), 16, 3)
            &&& is_svc(word_at(c, a + 20), 0)
            &&& is_cbnz_x(word_at(c, a + 24), 0, 3)
            &&& is_movz_w(word_at(c, a + 28), 8, 0)
            &&& is_strb(word_at(c, a + 32), 8, 4, 0)
            &&& is_mov_x(word_at(c, a + 36), 0, 4)
        }),
        block_len(ops[k]) == 40 * ops[k]->In_0,
{
    let n = ops[k]->In_0 as nat;
    let ws = in_words();
    assert forall|j: int| 0 <= j < 10 implies word_at(jit_code(ops), addr(ops, k) + 40 * i + 4
        * j) == ws[j] by {
        lemma_repeat_index(ws, n, i, j);
        lemma_word_in_code(ops, k, 10 * i + j);
        assert(addr(ops, k) + 4 * (10 * i + j) == addr(ops, k) + 40 * i + 4 * j);
    }
    let a = addr(ops, k) + 40 * i;
    assert(word_at(jit_code(ops), a + 4 * 0) == ws[0]);
    assert(word_at(jit_code(ops), a + 4 * 1) == ws[1]);
    assert(word_at(jit_code(ops), a + 4 * 2) == ws[2]);
    assert(word_at(jit_code(ops), a + 4 * 3) == ws[3]);
    assert(word_at(jit_code(ops), a + 4 * 4) == ws[4]);
    assert(word_at(jit_code(ops), a + 4 * 5) == ws[5]);
    assert(word_at(jit_code(ops), a + 4 * 6) == ws[6]);
    assert(word_at(jit_code(ops), a + 4 * 7) == ws[7]);
    assert(word_at(jit_code(ops), a + 4 * 8) == ws[8]);
    assert(word_at(jit_code(ops), a + 4 * 9) == ws[9]);
    let w0: u32 = ws[0];
    assert(w0 == 0xaa0003e4u32);
    let w1: u32 = ws[1];
    assert(w1 == 0xaa0003e1u32);
    let w2: u32 = ws[2];
    assert(w2 == 0xd2800000u32);
    let w3: u32 = ws[3];
    assert(w3 == 0xd2800022u32);
    let w4: u32 = ws[4];
    assert(w4 == 0xd2800070u32);
    let w5: u32 = ws[5];
    assert(w5 == 0xd4000001u32);
    let w6: u32 = ws[6];
    assert(w6 == 0xb5000060u32);
    let w7: u32 = ws[7];
    assert(w7 == 0x52800008u32);
    let w8: u32 = ws[8];
    assert(w8 == 0x39000088u32);
    let w9: u32 = ws[9];
    assert(w9 == 0xaa0403e0u32);
    assert(is_mov_x(w0, 4, 0) && is_mov_x(w1, 1, 0) && is_movz_x(w2, 0, 0) && is_movz_x(w3, 2, 1) && is_movz_x(w4, 16, 3) && is_svc(w5, 0) && is_cbnz_x(w6, 0, 3) && is_movz_w(w7, 8, 0) && is_strb(w8, 8, 4, 0) && is_mov_x(w9, 0, 4)) by (bit_vector)
        requires
            w0 == 0xaa0003e4u32,
            w1 == 0xaa0003e1u32,
            w2 == 0xd2800000u32,
            w3 == 0xd2800022u32,
            w4 == 0xd2800070u32,
            w5 == 0xd4000001u32,
            w6 == 0xb5000060u32,
            w7 == 0x52800008u32,
            w8 == 0x39000088u32,
            w9 == 0xaa0403e0u32,
    ;
}


/// `ldrb Wt, [Xn, #off]`: loads the byte at `Xn + off` into register `rt`.
pub open spec fn is_ldrb(w: u32, rt: u32, rn: u32, off: u32) -> bool {
    &&& w & 0xffc00000 == 0x39400000
    &&& (w >> 10u32) & 0xfff == off
    &&& (w >> 5u32) & 0x1f == rn
    &&& w & 0x1f == rt
}

/// `add Wd, Wn, #imm` (32 bits, no shift).
pub open spec fn is_add_w(w: u32, rd: u32, rn: u32, imm: u32) -> bool {
    &&& w & 0xffc00000 == 0x11000000
    &&& (w >> 10u32) & 0xfff == imm
    &&& (w >> 5u32) & 0x1f == rn
    &&& w & 0x1f == rd
}

/// `sub Wd, Wn, #imm` (32 bits, no shift).
pub open spec fn is_sub_w(w: u32, rd: u32, rn: u32, imm: u32) -> bool {
    &&& w & 0xffc00000 == 0x51000000
    &&& (w >> 10u32) & 0xfff == imm
    &&& (w >> 5u32) & 0x1f == rn
    &&& w & 0x1f == rd
}

/// `add Xd, Xn, #imm` (64 bits, no shift).
pub open spec fn is_add_x(w: u32, rd: u32, rn: u32, imm: u32) -> bool {
    &&& w & 0xffc00000 == 0x91000000
    &&& (w >> 10u32) & 0xfff == imm
    &&& (w >> 5u32) & 0x1f == rn
    &&& w & 0x1f == rd
}

/// `sub Xd, Xn, #imm` (64 bits, no shift).
pub open spec fn is_sub_x(w: u32, rd: u32, rn: u32, imm: u32) -> bool {
    &&& w & 0xffc00000 == 0xd1000000
    &&& (w >> 10u32) & 0xfff == imm
    &&& (w >> 5u32) & 0x1f == rn
    &&& w & 0x1f == rd
}

/// `cbz Wt, <label>` (when `nonzero` is false) or `cbnz Wt, <label>`.
pub open spec fn is_cb_w(w: u32, nonzero: bool, rt: u32) -> bool {
    &&& w & 0xff000000 == if nonzero {
        0x35000000u32
    } else {
        0x34000000u32
    }
    &&& w & 0x1f == rt
}

/// `ret` (to the address in x30).
pub open spec fn is_ret(w: u32) -> bool {
    &&& w & 0xfffffc1f == 0xd65f0000
    &&& (w >> 5u32) & 0x1f == 30
}

/// What the code of each instruction does, with x0 the address of the
/// current cell and w8 scratch:
/// `Inc(n)`/`Dec(n)` load the cell, add/subtract `n mod 256`, store it back;
/// `Left(n)`/`Right(n)` subtract/add `n` to x0;
/// `Jz`/`Jnz` load the cell and branch when it is zero/not zero;
/// and the code ends with a return.
pub proof fn lemma_code_decodes(ops: Seq<Op>, k: int)
    requires
        jit_ok(ops),
        0 <= k < ops.len(),
    ensures
        ({
            let a = addr(ops, k);
            let c = jit_code(ops);
            match ops[k] {
                Op::Inc(n) => is_ldrb(word_at(c, a), 8, 0, 0) && is_add_w(
                    word_at(c, a + 4),
                    8,
                    8,
                    (n % 256) as u32,
                ) && is_strb(word_at(c, a + 8), 8, 0, 0),
                Op::Dec(n) => is_ldrb(word_at(c, a), 8, 0, 0) && is_sub_w(
                    word_at(c, a + 4),
                    8,
                    8,
                    (n % 256) as u32,
                ) && is_strb(word_at(c, a + 8), 8, 0, 0),
                Op::Left(n) => is_sub_x(word_at(c, a), 0, 0, n),
                Op::Right(n) => is_add_x(word_at(c, a), 0, 0, n),
                Op::Jz(_) => is_ldrb(word_at(c, a), 8, 0, 0) && is_cb_w(word_at(c, a + 4), false, 8),
                Op::Jnz(_) => is_ldrb(word_at(c, a), 8, 0, 0) && is_cb_w(word_at(c, a + 4), true, 8),
                _ => true,
            }
        }),
        is_ret(word_at(jit_code(ops), addr(ops, ops.len() as int))),
{
    let a = addr(ops, k);
    let c = jit_code(ops);
    let br = branch_for(ops, k);
    let ws = op_words(ops[k], br);
    assert(jit_op_ok(ops, k));
    let ldrb: u32 = LDRB_W8;
    let strb: u32 = STRB_W8;
    assert(is_ldrb(ldrb, 8, 0, 0)) by (bit_vector)
        requires
            ldrb == 0x39400008u32,
    ;
    assert(is_strb(strb, 8, 0, 0)) by (bit_vector)
        requires
            strb == 0x39000008u32,
    ;
    match ops[k] {
        Op::Inc(n) => {
            lemma_word_in_code(ops, k, 0);
            lemma_word_in_code(ops, k, 1);
            lemma_word_in_code(ops, k, 2);
            let w: u32 = ADD_W8 | imm8(n);
            assert(is_add_w(w, 8, 8, (n % 256) as u32)) by (bit_vector)
                requires
                    w == 0x11000108u32 | ((n & 0xff) << 10u32),
            ;
        },
        Op::Dec(n) => {
            lemma_word_in_code(ops, k, 0);
            lemma_word_in_code(ops, k, 1);
            lemma_word_in_code(ops, k, 2);
            let w: u32 = SUB_W8 | imm8(n);
            assert(is_sub_w(w, 8, 8, (n % 256) as u32)) by (bit_vector)
                requires
                    w == 0x51000108u32 | ((n & 0xff) << 10u32),
            ;
        },
        Op::Left(n) => {
            lemma_word_in_code(ops, k, 0);
            let w: u32 = SUB_X0 | imm8(n);
            assert(is_sub_x(w, 0, 0, n)) by (bit_vector)
                requires
                    w == 0xd1000000u32 | ((n & 0xff) << 10u32),
                    n < 256,
            ;
        },
        Op::Right(n) => {
            lemma_word_in_code(ops, k, 0);
            let w: u32 = ADD_X0 | imm8(n);
            assert(is_add_x(w, 0, 0, n)) by (bit_vector)
                requires
                    w == 0x91000000u32 | ((n & 0xff) << 10u32),
                    n < 256,
            ;
        },
        Op::Jz(_) => {
            lemma_word_in_code(ops, k, 0);
            lemma_word_in_code(ops, k, 1);
            let f = (branch_offset(ops, k) / 4) % 0x80000;
            assert(0 <= f < 0x80000);
            assert(br == f * 32);
            assert(br < 0x1000000 && br % 32 == 0);
            let w: u32 = CBZ_W8 | br;
            assert(is_cb_w(w, false, 8)) by (bit_vector)
                requires
                    w == 0x34000008u32 | br,
                    br < 0x1000000,
                    br % 32 == 0,
            ;
        },
        Op::Jnz(_) => {
            lemma_word_in_code(ops, k, 0);
            lemma_word_in_code(ops, k, 1);
            let f = (branch_offset(ops, k) / 4) % 0x80000;
            assert(0 <= f < 0x80000);
            assert(br == f * 32);
            assert(br < 0x1000000 && br % 32 == 0);
            let w: u32 = CBNZ_W8 | br;
            assert(is_cb_w(w, true, 8)) by (bit_vector)
                requires
                    w == 0x35000008u32 | br,
                    br < 0x1000000,
                    br % 32 == 0,
            ;
        },
        _ => {},
    }
    // the return
    let n = ops.len() as int;
    let e = addr(ops, n);
    lemma_code_len(ops, n);
    assert forall|t: int| 0 <= t < 4 implies jit_code(ops)[e + t] == le32(RET)[t] by {}
    lemma_le32_word(RET);
    assert(word_at(jit_code(ops), e) == word_at(le32(RET), 0));
    let r: u32 = RET;
    assert(is_ret(r)) by (bit_vector)
        requires
            r == 0xd65f03c0u32,
    ;
}

/// The code generator accepts every well-matched program whose moves are
/// by fewer than 256 cells, whose branches span at most `MAX_BRANCH` bytes
/// and whose code fits in memory.
pub proof fn lemma_jit_complete(ops: Seq<Op>)
    requires
        well_matched(ops),
        ops.len() <= usize::MAX,
        forall|k: int| 0 <= k < ops.len() && (#[trigger] ops[k]) is Left ==> ops[k]->Left_0 < 256,
        forall|k: int| 0 <= k < ops.len() && (#[trigger] ops[k]) is Right ==> ops[k]->Right_0 < 256,
        forall|k: int|
            0 <= k < ops.len() && is_jump_op(#[trigger] ops[k]) ==> -MAX_BRANCH <= branch_offset(
                ops,
                k,
            ) <= MAX_BRANCH,
        addr(ops, ops.len() as int) + 4 <= isize::MAX,
    ensures
        jit_ok(ops),
{
    assert forall|k: int| 0 <= k < ops.len() implies #[trigger] jit_op_ok(ops, k) by {
        if ops[k] is Jz {
            lemma_wm_jz(ops, k);
        }
        if ops[k] is Jnz {
            lemma_wm_jnz(ops, k);
        }
    }
}

/// A program parsed without merging moves by one cell at a time.
pub proof fn lemma_parsed_moves_are_single(src: Seq<u8>, ops: Seq<Op>)
    requires
        shapes(ops) == tokens(src),
    ensures
        forall|k: int|
            0 <= k < ops.len() ==> ((#[trigger] ops[k]) is Left ==> ops[k]->Left_0 == 1) && (
            ops[k] is Right ==> ops[k]->Right_0 == 1),
    decreases src.len(),
{
    lemma_tokens_single(src);
    assert forall|k: int| 0 <= k < ops.len() implies ((#[trigger] ops[k]) is Left
        ==> ops[k]->Left_0 == 1) && (ops[k] is Right ==> ops[k]->Right_0 == 1) by {
        assert(shapes(ops)[k] == shape(ops[k]));
    }
}

// ---------------------------------------------------------------------------
// Compiling a program
// ---------------------------------------------------------------------------

/// The branch recorded for jump `k`.
pub open spec fn bp_for(ops: Seq<Op>, k: int) -> Backpatch {
    Backpatch {
        operand_byte_addr: (addr(ops, k) + 4) as usize,
        src_byte_addr: (addr(ops, k) + 4) as usize,
        dst_op_index: (target(ops[k]) + 1) as usize,
        origin: if ops[k] is Jz {
            Op::Jz((target(ops[k]) + 1) as usize)
        } else {
            Op::Jnz((target(ops[k]) + 1) as usize)
        },
    }
}

/// Appending the code of instruction `k` keeps every earlier instruction's
/// code at its address.
proof fn lemma_emit_block(ops: Seq<Op>, mem: Seq<u8>, k: int, b: Seq<u8>)
    requires
        0 <= k < ops.len(),
        mem.len() == addr(ops, k),
        b == block(ops, k, false),
        forall|k2: int|
            0 <= k2 < k ==> #[trigger] mem.subrange(addr(ops, k2), addr(ops, k2 + 1)) == block(
                ops,
                k2,
                false,
            ),
    ensures
        (mem + b).len() == addr(ops, k + 1),
        forall|k2: int|
            0 <= k2 < k + 1 ==> #[trigger] (mem + b).subrange(addr(ops, k2), addr(ops, k2 + 1))
                == block(ops, k2, false),
{
    lemma_block_len(ops, k, false);
    assert forall|k2: int| 0 <= k2 < k + 1 implies #[trigger] (mem + b).subrange(
        addr(ops, k2),
        addr(ops, k2 + 1),
    ) == block(ops, k2, false) by {
        if k2 < k {
            lemma_addr_mono(ops, k2 + 1, k);
            lemma_addr_mono(ops, 0, k2);
            lemma_addr_mono(ops, k2, k2 + 1);
            assert((mem + b).subrange(addr(ops, k2), addr(ops, k2 + 1)) =~= mem.subrange(
                addr(ops, k2),
                addr(ops, k2 + 1),
            ));
        } else {
            assert((mem + b).subrange(addr(ops, k2), addr(ops, k2 + 1)) =~= b);
        }
    }
}

/// The displacement field computed with machine integers is `branch_field`.
proof fn lemma_patch_value(x: i64, q: i64)
    requires
        -MAX_BRANCH <= x <= MAX_BRANCH,
        x % 4 == 0,
        q == x / 4,
    ensures
        0 <= (q & 0x7ffff) << 5u32 < 0x1000000,
        ((q & 0x7ffff) << 5u32) as u32 == branch_field(x as int),
{
    assert(-0x10000 <= q <= 0x10000);
    if q >= 0 {
        assert(q & 0x7ffff == q) by (bit_vector)
            requires
                0 <= q <= 0x10000,
        ;
        assert((q & 0x7ffff) << 5u32 == (q & 0x7ffff) * 32) by (bit_vector)
            requires
                0 <= (q & 0x7ffff) <= 0x7ffff,
        ;
        assert((x as int / 4) % 0x80000 == q);
    } else {
        assert(q & 0x7ffff == q + 0x80000) by (bit_vector)
            requires
                -0x10000 <= q < 0,
        ;
        assert((q & 0x7ffff) << 5u32 == (q & 0x7ffff) * 32) by (bit_vector)
            requires
                0 <= (q & 0x7ffff) <= 0x7ffff,
        ;
        assert((x as int / 4) % 0x80000 == q + 0x80000);
    }
}

/// Byte `i` of the displacement, as the patching loop computes it.
pub open spec fn patch_byte(patch: i64, i: usize) -> u8 {
    (patch >> (8 * i)) as u8 & 0xff
}

proof fn lemma_patch_bytes(patch: i64)
    requires
        0 <= patch < 0x1000000,
    ensures
        le32(patch as u32) == seq![
            patch_byte(patch, 0),
            patch_byte(patch, 1),
            patch_byte(patch, 2),
            patch_byte(patch, 3),
        ],
{
    let p = patch as u32;
    assert(((patch >> (8 * 0usize)) as u8 & 0xff) == (p & 0xff) as u8) by (bit_vector)
        requires
            0 <= patch < 0x1000000,
            p == patch as u32,
    ;
    assert(((patch >> (8 * 1usize)) as u8 & 0xff) == ((p >> 8u32) & 0xff) as u8) by (bit_vector)
        requires
            0 <= patch < 0x1000000,
            p == patch as u32,
    ;
    assert(((patch >> (8 * 2usize)) as u8 & 0xff) == ((p >> 16u32) & 0xff) as u8) by (bit_vector)
        requires
            0 <= patch < 0x1000000,
            p == patch as u32,
    ;
    assert(((patch >> (8 * 3usize)) as u8 & 0xff) == ((p >> 24u32) & 0xff) as u8) by (bit_vector)
        requires
            0 <= patch < 0x1000000,
            p == patch as u32,
    ;
    assert(le32(p) =~= seq![
        patch_byte(patch, 0),
        patch_byte(patch, 1),
        patch_byte(patch, 2),
        patch_byte(patch, 3),
    ]);
}

/// What holds of the code while the branches are patched: each
/// instruction's code is at its address, its branch filled in when its
/// record comes before `j`; the return follows.
spec fn patching_inv(ops: Seq<Op>, mem: Seq<u8>, rank: Seq<int>, j: int) -> bool {
    let end = addr(ops, ops.len() as int);
    &&& mem.len() == end + 4
    &&& mem.subrange(end, end + 4) == le32(RET)
    &&& forall|k2: int|
        0 <= k2 < ops.len() ==> #[trigger] mem.subrange(addr(ops, k2), addr(ops, k2 + 1))
            == block(ops, k2, is_jump_op(ops[k2]) && rank[k2] < j)
}

/// OR-ing the displacement of jump `k` into its branch word patches its code
/// and leaves every other byte alone.
proof fn lemma_patch_block(
    ops: Seq<Op>,
    mem: Seq<u8>,
    mem2: Seq<u8>,
    rank: Seq<int>,
    j: int,
    k: int,
    patch: i64,
)
    requires
        jit_ok(ops),
        0 <= k < ops.len(),
        is_jump_op(ops[k]),
        rank.len() == ops.len(),
        rank[k] == j,
        forall|k2: int|
            0 <= k2 < ops.len() && is_jump_op(ops[k2]) && rank[k2] == j ==> k2 == k,
        patching_inv(ops, mem, rank, j),
        0 <= patch < 0x1000000,
        patch as u32 == branch_for(ops, k),
        mem2.len() == mem.len(),
        forall|x: int|
            0 <= x < mem.len() ==> #[trigger] mem2[x] == if addr(ops, k) + 4 <= x < addr(ops, k)
                + 8 {
                mem[x] | patch_byte(patch, (x - addr(ops, k) - 4) as usize)
            } else {
                mem[x]
            },
    ensures
        patching_inv(ops, mem2, rank, j + 1),
{
    let a = addr(ops, k);
    let end = addr(ops, ops.len() as int);
    lemma_block_len(ops, k, false);
    lemma_addr_mono(ops, k + 1, ops.len() as int);
    lemma_addr_mono(ops, 0, k);
    lemma_addr_mono(ops, k, k + 1);
    assert(addr(ops, k + 1) == a + 8);
    // the return is untouched
    assert(mem2.subrange(end, end + 4) =~= mem.subrange(end, end + 4));
    // the branch word of jump k
    let cb = if ops[k] is Jz {
        CBZ_W8
    } else {
        CBNZ_W8
    };
    let p = patch as u32;
    assert(cb | 0 == cb) by (bit_vector);
    lemma_words2(LDRB_W8, cb);
    lemma_words2(LDRB_W8, cb | p);
    lemma_le32_or(cb, p);
    lemma_patch_bytes(patch);
    assert(mem.subrange(a, a + 8) == block(ops, k, false));
    assert(block(ops, k, false) == le32(LDRB_W8) + le32(cb));
    assert(block(ops, k, true) == le32(LDRB_W8) + le32(cb | p));
    assert forall|i: int| 0 <= i < 8 implies mem2.subrange(a, a + 8)[i] == block(ops, k, true)[i] by {
        assert(mem2.subrange(a, a + 8)[i] == mem2[a + i]);
        assert(mem.subrange(a, a + 8)[i] == mem[a + i]);
        if i >= 4 {
            assert(mem2[a + i] == mem[a + i] | patch_byte(patch, (i - 4) as usize));
        }
    }
    assert(mem2.subrange(a, a + 8) =~= block(ops, k, true));
    assert forall|k2: int| 0 <= k2 < ops.len() implies #[trigger] mem2.subrange(
        addr(ops, k2),
        addr(ops, k2 + 1),
    ) == block(ops, k2, is_jump_op(ops[k2]) && rank[k2] < j + 1) by {
        if k2 == k {
            assert(k2 + 1 == k + 1);
        } else {
            assert(mem.subrange(addr(ops, k2), addr(ops, k2 + 1)) == block(
                ops,
                k2,
                is_jump_op(ops[k2]) && rank[k2] < j,
            ));
            if k2 < k {
                lemma_addr_mono(ops, k2 + 1, k);
                lemma_addr_mono(ops, k2, k2 + 1);
                lemma_addr_mono(ops, 0, k2);
            } else {
                lemma_addr_mono(ops, k + 1, k2);
                lemma_addr_mono(ops, k2, k2 + 1);
                lemma_addr_mono(ops, k2 + 1, ops.len() as int);
            }
            assert(mem2.subrange(addr(ops, k2), addr(ops, k2 + 1)) =~= mem.subrange(
                addr(ops, k2),
                addr(ops, k2 + 1),
            ));
        }
    }
}

impl Cpu {
    /// Whether `compile_jit` can compile the program.
    pub fn jit_supported(&self) -> (r: bool)
        ensures
            r == jit_ok(self@.ops),
    {
        let ops = self.ops();
        let n = ops.len();
        let ghost s = ops@;
        let limit: u64 = isize::MAX as u64;
        let mut addrs: Vec<u64> = Vec::new();
        let mut total: u64 = 0;
        let mut k: usize = 0;
        // The address of every instruction's code, while it fits.
        while k < n
            invariant
                n == s.len(),
                ops@ == s,
                s == self@.ops,
                limit == isize::MAX,
                0 <= k <= n,
                total == addr(s, k as int),
                total <= limit,
                addrs@.len() == k,
                forall|k2: int| 0 <= k2 < k ==> #[trigger] addrs@[k2] == addr(s, k2),
            decreases n - k,
        {
            let size: u64 = match ops[k] {
                Op::Inc(_) | Op::Dec(_) => 12,
                Op::Left(_) | Op::Right(_) => 4,
                Op::Out(c) => 28 * c as u64,
                Op::In(c) => 40 * c as u64,
                Op::Jz(_) | Op::Jnz(_) => 8,
            };
            assert(size == block_len(s[k as int]));
            if size > limit - total {
                proof {
                    lemma_addr_mono(s, k as int + 1, n as int);
                }
                return false;
            }
            addrs.push(total);
            total = total + size;
            k += 1;
        }
        if total > limit - 4 {
            return false;
        }
        addrs.push(total);
        // Every instruction within the limits of the code generator.
        let mut k: usize = 0;
        while k < n
            invariant
                n == s.len(),
                ops@ == s,
                s == self@.ops,
                0 <= k <= n,
                addrs@.len() == n + 1,
                forall|k2: int| 0 <= k2 <= n ==> #[trigger] addrs@[k2] == addr(s, k2),
                addr(s, n as int) + 4 <= isize::MAX,
                forall|k2: int| 0 <= k2 < k ==> #[trigger] jit_op_ok(s, k2),
            decreases n - k,
        {
            let ok = match ops[k] {
                Op::Left(c) | Op::Right(c) => c < 256,
                Op::Jz(t) | Op::Jnz(t) => {
                    if t >= n {
                        false
                    } else {
                        proof {
                            lemma_addr_mono(s, k as int, n as int);
                            lemma_addr_mono(s, t as int + 1, n as int);
                            assert(addrs@[t as int + 1] == addr(s, t as int + 1));
                            assert(addrs@[k as int] == addr(s, k as int));
                        }
                        let dst = addrs[t + 1];
                        let src = addrs[k] + 4;
                        dst + 0x40000 >= src && dst <= src + 0x40000
                    }
                },
                _ => true,
            };
            assert(ok == jit_op_ok(s, k as int));
            if !ok {
                return false;
            }
            k += 1;
        }
        true
    }

    /// Compiles the program to AArch64 machine code: the code of each
    /// instruction in turn (with the current cell's address in x0), every
    /// branch pointed at the code of the instruction after its target, and a
    /// return at the end.
    pub fn compile_jit(&self) -> (native_mem: Vec<u8>)
        requires
            jit_ok(self@.ops),
        ensures
            native_mem@ == jit_code(self@.ops),
    {
        let ops = self.ops();
        let ghost s = ops@;
        let mut native_mem: Vec<u8> = Vec::new();
        let mut instruction_addrs: Vec<usize> = Vec::new();
        let mut backpatches: Vec<Backpatch> = Vec::new();
        let ghost mut bp_op: Seq<int> = Seq::empty();
        let ghost mut rank: Seq<int> = Seq::empty();
        let mut k: usize = 0;
        proof {
            lemma_addr_mono(s, 0, s.len() as int);
        }
        while k < ops.len()
            invariant
                ops@ == s,
                jit_ok(s),
                0 <= k <= s.len(),
                native_mem@.len() == addr(s, k as int),
                forall|k2: int|
                    0 <= k2 < k ==> #[trigger] native_mem@.subrange(addr(s, k2), addr(s, k2 + 1))
                        == block(s, k2, false),
                instruction_addrs@.len() == k,
                forall|k2: int| 0 <= k2 < k ==> #[trigger] instruction_addrs@[k2] == addr(s, k2),
                backpatches@.len() == bp_op.len(),
                rank.len() == k,
                forall|j: int|
                    0 <= j < bp_op.len() ==> 0 <= #[trigger] bp_op[j] < k && is_jump_op(s[bp_op[j]])
                        && rank[bp_op[j]] == j && backpatches@[j] == bp_for(s, bp_op[j]),
                forall|k2: int|
                    0 <= k2 < k && is_jump_op(s[k2]) ==> 0 <= #[trigger] rank[k2] < bp_op.len()
                        && bp_op[rank[k2]] == k2,
            decreases s.len() - k,
        {
            let ghost before = native_mem@;
            let ghost bps0 = backpatches@;
            proof {
                assert(jit_op_ok(s, k as int));
                lemma_addr_mono(s, k as int + 1, s.len() as int);
                lemma_block_len(s, k as int, false);
            }
            // Where the code of this instruction starts.
            instruction_addrs.push(native_mem.len());
            match ops[k] {
                Op::Inc(n) => Op::inc(&mut native_mem, n),
                Op::Dec(n) => Op::dec(&mut native_mem, n),
                Op::Left(n) => Op::left(&mut native_mem, n),
                Op::Right(n) => Op::right(&mut native_mem, n),
                Op::In(n) => {
                    let mut c: u32 = 0;
                    while c < n
                        invariant
                            c <= n,
                            native_mem@ == before + words(repeat(in_words(), c as nat)),
                        decreases n - c,
                    {
                        Op::inp(&mut native_mem);
                        proof {
                            lemma_words_concat(repeat(in_words(), c as nat), in_words());
                            assert(repeat(in_words(), (c + 1) as nat) == repeat(
                                in_words(),
                                c as nat,
                            ) + in_words());
                        }
                        c += 1;
                    }
                },
                Op::Out(n) => {
                    let mut c: u32 = 0;
                    while c < n
                        invariant
                            c <= n,
                            native_mem@ == before + words(repeat(out_words(), c as nat)),
                        decreases n - c,
                    {
                        Op::out(&mut native_mem);
                        proof {
                            lemma_words_concat(repeat(out_words(), c as nat), out_words());
                            assert(repeat(out_words(), (c + 1) as nat) == repeat(
                                out_words(),
                                c as nat,
                            ) + out_words());
                        }
                        c += 1;
                    }
                },
                Op::Jz(n) => Op::jz(&mut native_mem, n + 1, &mut backpatches),
                Op::Jnz(n) => Op::jnz(&mut native_mem, n + 1, &mut backpatches),
            }
            proof {
                let b = block(s, k as int, false);
                assert(native_mem@ == before + b);
                lemma_emit_block(s, before, k as int, b);
                if is_jump_op(s[k as int]) {
                    assert(backpatches@ == bps0.push(bp_for(s, k as int)));
                    rank = rank.push(bp_op.len() as int);
                    bp_op = bp_op.push(k as int);
                } else {
                    rank = rank.push(-1);
                }
            }
            k += 1;
        }
        let end = native_mem.len();
        instruction_addrs.push(end);
        let ghost pre = native_mem@;
        Op::ret(&mut native_mem);
        let ghost nj = bp_op.len() as int;
        proof {
            let mem = native_mem@;
            let e = addr(s, s.len() as int);
            assert(mem.subrange(e, e + 4) =~= le32(RET));
            assert forall|k2: int| 0 <= k2 < s.len() implies #[trigger] mem.subrange(
                addr(s, k2),
                addr(s, k2 + 1),
            ) == block(s, k2, is_jump_op(s[k2]) && rank[k2] < 0) by {
                lemma_addr_mono(s, k2 + 1, s.len() as int);
                lemma_addr_mono(s, k2, k2 + 1);
                lemma_addr_mono(s, 0, k2);
                assert(pre.subrange(addr(s, k2), addr(s, k2 + 1)) == block(s, k2, false));
                assert(mem.subrange(addr(s, k2), addr(s, k2 + 1)) =~= pre.subrange(
                    addr(s, k2),
                    addr(s, k2 + 1),
                ));
            }
        }
        // Every instruction's address is known: fill in the branches.
        let n_ops = ops.len();
        let mut j: usize = 0;
        while j < backpatches.len()
            invariant
                ops@ == s,
                s.len() == n_ops,
                jit_ok(s),
                instruction_addrs@.len() == s.len() + 1,
                forall|k2: int| 0 <= k2 <= s.len() ==> #[trigger] instruction_addrs@[k2] == addr(s, k2),
                backpatches@.len() == nj,
                bp_op.len() == nj,
                rank.len() == s.len(),
                0 <= j <= nj,
                forall|j2: int|
                    0 <= j2 < nj ==> 0 <= #[trigger] bp_op[j2] < s.len() && is_jump_op(s[bp_op[j2]])
                        && rank[bp_op[j2]] == j2 && backpatches@[j2] == bp_for(s, bp_op[j2]),
                forall|k2: int|
                    0 <= k2 < s.len() && is_jump_op(s[k2]) ==> 0 <= #[trigger] rank[k2] < nj
                        && bp_op[rank[k2]] == k2,
                patching_inv(s, native_mem@, rank, j as int),
            decreases nj - j,
        {
            let bp = &backpatches[j];
            let ghost kk = bp_op[j as int];
            proof {
                assert(backpatches@[j as int] == bp_for(s, kk));
                assert(jit_op_ok(s, kk));
                assert(instruction_addrs@[target(s[kk]) + 1] == addr(s, target(s[kk]) + 1));
                lemma_addr_mono(s, kk + 1, s.len() as int);
                lemma_addr_mono(s, kk, kk + 1);
                lemma_addr_mono(s, 0, kk);
                lemma_addr_mono(s, target(s[kk]) + 1, s.len() as int);
                lemma_addr_mono(s, 0, target(s[kk]) + 1);
                lemma_block_len(s, kk, false);
                let e = addr(s, s.len() as int);
                assert(0 <= addr(s, kk) && addr(s, kk) + 8 <= e);
                assert(e + 4 <= isize::MAX);
                assert(isize::MAX <= i64::MAX);
                assert(bp.src_byte_addr == addr(s, kk) + 4);
                assert(bp.operand_byte_addr == addr(s, kk) + 4);
                assert(bp.dst_op_index == target(s[kk]) + 1);
                assert(0 <= addr(s, target(s[kk]) + 1) <= e);
            }
            let src_addr = bp.src_byte_addr as i64;
            let dst_addr = instruction_addrs[bp.dst_op_index] as i64;
            let operand = dst_addr - src_addr;
            proof {
                assert(operand == branch_offset(s, kk));
            }
            let words_offset = operand / 4;
            proof {
                lemma_patch_value(operand, words_offset);
            }
            let patch = (words_offset & 0x7ffff) << 5;
            let ghost mem0 = native_mem@;
            let ghost a = addr(s, kk);
            let mut i: usize = 0;
            while i < 4
                invariant
                    0 <= i <= 4,
                    bp.operand_byte_addr == a + 4,
                    a + 8 <= mem0.len(),
                    mem0.len() <= isize::MAX,
                    0 <= a,
                    native_mem@.len() == mem0.len(),
                    forall|x: int|
                        0 <= x < mem0.len() ==> #[trigger] native_mem@[x] == if a + 4 <= x < a + 4
                            + i {
                            mem0[x] | patch_byte(patch, (x - a - 4) as usize)
                        } else {
                            mem0[x]
                        },
                decreases 4 - i,
            {
                let idx = bp.operand_byte_addr + i;
                let old_byte = native_mem[idx];
                native_mem.set(idx, old_byte | ((patch >> (8 * i)) as u8 & 0xff));
                i += 1;
            }
            proof {
                assert forall|k2: int|
                    0 <= k2 < s.len() && is_jump_op(s[k2]) && rank[k2] == j implies k2 == kk by {
                    assert(bp_op[rank[k2]] == k2);
                }
                lemma_patch_block(s, mem0, native_mem@, rank, j as int, kk, patch);
            }
            j += 1;
        }
        proof {
            let mem = native_mem@;
            let e = addr(s, s.len() as int);
            assert forall|k2: int| 0 <= k2 < s.len() implies #[trigger] mem.subrange(
                addr(s, k2),
                addr(s, k2 + 1),
            ) == block(s, k2, true) by {
                assert(mem.subrange(addr(s, k2), addr(s, k2 + 1)) == block(
                    s,
                    k2,
                    is_jump_op(s[k2]) && rank[k2] < nj,
                ));
            }
            lemma_blocks_code(s, mem, s.len() as int);
            assert(mem =~= mem.take(e) + mem.subrange(e, e + 4));
        }
        native_mem
    }
}

} // verus!
