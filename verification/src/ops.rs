use vstd::prelude::*;
use vstd::string::StringSliceAdditionalSpecFns;
use vstd::utf8::{encode_scalar, encode_utf8, has_width_1_encoding};

use crate::stack::Stack;

verus! {

/// Whether `Op::parse` merges runs of identical instructions into one
/// instruction whose operand is the length of the run.
pub const COMPRESS: bool = false;

/// A loop whose opening instruction sits at `start` and whose closing
/// instruction sits at `end` (0 while the closing one has not been seen).
#[derive(Clone, Debug)]
pub struct Jumps {
    pub start: usize,
    pub end: usize,
}

impl Jumps {
    pub fn new(start: usize, end: usize) -> (j: Self)
        ensures
            j.start == start,
            j.end == end,
    {
        Self { start, end }
    }
}

/// One instruction of a program.
///
/// The operand of the first six is a repeat count; `Jz(j)` jumps past the
/// instruction at `j` when the current cell is zero, and `Jnz(i)` jumps past
/// the instruction at `i` when it is not.
#[derive(Clone, Copy, Debug, PartialEq, Eq, Structural)]
pub enum Op {
    Inc(u32),
    Dec(u32),
    Left(u32),
    Right(u32),
    Out(u32),
    In(u32),
    Jz(usize),
    Jnz(usize),
}

// ---------------------------------------------------------------------------
// What a source text means
// ---------------------------------------------------------------------------

/// The instruction that a byte of source stands for, with a count of one and
/// an unresolved jump target; `None` for every byte that is not a command.
pub open spec fn byte_op(b: u8) -> Option<Op> {
    if b == 43 {
        Some(Op::Inc(1))  // '+'
    } else if b == 45 {
        Some(Op::Dec(1))  // '-'
    } else if b == 60 {
        Some(Op::Left(1))  // '<'
    } else if b == 62 {
        Some(Op::Right(1))  // '>'
    } else if b == 46 {
        Some(Op::Out(1))  // '.'
    } else if b == 44 {
        Some(Op::In(1))  // ','
    } else if b == 91 {
        Some(Op::Jz(0))  // '['
    } else if b == 93 {
        Some(Op::Jnz(0))  // ']'
    } else {
        None
    }
}

/// The commands of a source text, in order, every other byte left out.
/// (A command is an ASCII byte, and in UTF-8 an ASCII byte only ever stands
/// for the ASCII character itself.)
pub open spec fn tokens(src: Seq<u8>) -> Seq<Op>
    decreases src.len(),
{
    if src.len() == 0 {
        Seq::empty()
    } else {
        let rest = tokens(src.drop_last());
        match byte_op(src.last()) {
            Some(op) => rest.push(op),
            None => rest,
        }
    }
}

/// Number of `[` minus number of `]` in a source text.
pub open spec fn bracket_depth(src: Seq<u8>) -> int
    decreases src.len(),
{
    if src.len() == 0 {
        0
    } else {
        bracket_depth(src.drop_last()) + if src.last() == 91 {
            1int
        } else if src.last() == 93 {
            -1int
        } else {
            0int
        }
    }
}

/// Every `]` closes an earlier `[`, and every `[` is closed.
pub open spec fn balanced(src: Seq<u8>) -> bool {
    &&& forall|i: int| 0 <= i <= src.len() ==> bracket_depth(#[trigger] src.take(i)) >= 0
    &&& bracket_depth(src) == 0
}

pub open spec fn is_jump_op(op: Op) -> bool {
    op is Jz || op is Jnz
}

/// An instruction with its jump target, if any, replaced by 0.
pub open spec fn shape(op: Op) -> Op {
    match op {
        Op::Jz(_) => Op::Jz(0),
        Op::Jnz(_) => Op::Jnz(0),
        _ => op,
    }
}

pub open spec fn shapes(ops: Seq<Op>) -> Seq<Op> {
    ops.map_values(|op: Op| shape(op))
}

/// The instruction of the same kind as `op` with count `n`; jumps get target 0.
pub open spec fn with_operand(op: Op, n: nat) -> Op {
    match op {
        Op::Inc(_) => Op::Inc(n as u32),
        Op::Dec(_) => Op::Dec(n as u32),
        Op::Left(_) => Op::Left(n as u32),
        Op::Right(_) => Op::Right(n as u32),
        Op::Out(_) => Op::Out(n as u32),
        Op::In(_) => Op::In(n as u32),
        Op::Jz(_) => Op::Jz(0),
        Op::Jnz(_) => Op::Jnz(0),
    }
}

/// The commands grouped into runs: a maximal stretch of one repeated
/// non-jump command becomes one entry with its length; every jump command is
/// an entry of its own.
pub open spec fn runs(toks: Seq<Op>) -> Seq<(Op, nat)>
    decreases toks.len(),
{
    if toks.len() == 0 {
        Seq::empty()
    } else {
        let prev = runs(toks.drop_last());
        let t = toks.last();
        if !is_jump_op(t) && toks.len() >= 2 && toks[toks.len() - 2] == t && prev.len() > 0 {
            prev.update(prev.len() - 1, (t, prev.last().1 + 1))
        } else {
            prev.push((t, 1nat))
        }
    }
}

/// The program's instructions with jump targets left out.
pub open spec fn skeleton(toks: Seq<Op>, compress: bool) -> Seq<Op> {
    if compress {
        runs(toks).map_values(|r: (Op, nat)| with_operand(r.0, r.1))
    } else {
        toks
    }
}

/// Every run is short enough for its length to be a `u32`.
pub open spec fn runs_fit(toks: Seq<Op>) -> bool {
    forall|k: int| 0 <= k < runs(toks).len() ==> #[trigger] runs(toks)[k].1 <= u32::MAX
}

/// The inputs on which parsing succeeds.
pub open spec fn parsable(src: Seq<u8>, compress: bool) -> bool {
    &&& balanced(src)
    &&& compress ==> runs_fit(tokens(src))
}

/// Each `Jz` and `Jnz` name each other, the `Jz` first, and no two loops
/// cross: a loop that starts inside another one also ends inside it.
#[verifier::opaque]
pub open spec fn well_matched(ops: Seq<Op>) -> bool {
    &&& forall|i: int|
        0 <= i < ops.len() && (#[trigger] ops[i]) is Jz ==> i < ops[i]->Jz_0 < ops.len()
            && ops[ops[i]->Jz_0 as int] == Op::Jnz(i as usize)
    &&& forall|j: int|
        0 <= j < ops.len() && (#[trigger] ops[j]) is Jnz ==> ops[j]->Jnz_0 < j
            && ops[ops[j]->Jnz_0 as int] == Op::Jz(j as usize)
    &&& forall|i: int, k: int|
        0 <= i < k < ops.len() && (#[trigger] ops[i]) is Jz && (#[trigger] ops[k]) is Jz && k
            < ops[i]->Jz_0 ==> ops[k]->Jz_0 < ops[i]->Jz_0
}

/// The program that a source text stands for: its instructions (merged into
/// runs when `compress` holds) with every loop's two jumps naming each other.
/// `lemma_well_matched_unique` shows that there is at most one such program.
pub open spec fn program(src: Seq<u8>, compress: bool) -> Seq<Op> {
    choose|ops: Seq<Op>| shapes(ops) == skeleton(tokens(src), compress) && well_matched(ops)
}



// ---------------------------------------------------------------------------
// Commands as characters
// ---------------------------------------------------------------------------

/// The instruction that a character stands for (see `byte_op`).
pub open spec fn char_op(c: char) -> Option<Op> {
    if (c as u32) < 0x80 {
        byte_op((c as u32) as u8)
    } else {
        None
    }
}

/// The commands of a text read character by character.
pub open spec fn char_tokens(cs: Seq<char>) -> Seq<Op>
    decreases cs.len(),
{
    if cs.len() == 0 {
        Seq::empty()
    } else {
        let first = match char_op(cs[0]) {
            Some(op) => seq![op],
            None => Seq::<Op>::empty(),
        };
        first + char_tokens(cs.drop_first())
    }
}


/// Every command found in a source has count one.
pub proof fn lemma_tokens_single(src: Seq<u8>)
    ensures
        forall|k: int|
            0 <= k < tokens(src).len() ==> {
                let t = #[trigger] tokens(src)[k];
                &&& t is Inc ==> t->Inc_0 == 1
                &&& t is Dec ==> t->Dec_0 == 1
                &&& t is Left ==> t->Left_0 == 1
                &&& t is Right ==> t->Right_0 == 1
                &&& t is Out ==> t->Out_0 == 1
                &&& t is In ==> t->In_0 == 1
            },
    decreases src.len(),
{
    if src.len() > 0 {
        lemma_tokens_single(src.drop_last());
    }
}

/// Only the eight bytes `+ - < > . , [ ]` are commands; every other byte
/// of a source is ignored.
pub proof fn lemma_command_bytes(b: u8)
    ensures
        tokens(seq![b]) == if b == 43 {
            seq![Op::Inc(1)]
        } else if b == 45 {
            seq![Op::Dec(1)]
        } else if b == 60 {
            seq![Op::Left(1)]
        } else if b == 62 {
            seq![Op::Right(1)]
        } else if b == 46 {
            seq![Op::Out(1)]
        } else if b == 44 {
            seq![Op::In(1)]
        } else if b == 91 {
            seq![Op::Jz(0)]
        } else if b == 93 {
            seq![Op::Jnz(0)]
        } else {
            Seq::<Op>::empty()
        },
{
    let s = seq![b];
    assert(s.drop_last() =~= Seq::<u8>::empty());
    assert(s.last() == b);
    assert(tokens(s.drop_last()) == Seq::<Op>::empty());
    assert(Seq::<Op>::empty().push(Op::Inc(1)) =~= seq![Op::Inc(1)]);
    assert(Seq::<Op>::empty().push(Op::Dec(1)) =~= seq![Op::Dec(1)]);
    assert(Seq::<Op>::empty().push(Op::Left(1)) =~= seq![Op::Left(1)]);
    assert(Seq::<Op>::empty().push(Op::Right(1)) =~= seq![Op::Right(1)]);
    assert(Seq::<Op>::empty().push(Op::Out(1)) =~= seq![Op::Out(1)]);
    assert(Seq::<Op>::empty().push(Op::In(1)) =~= seq![Op::In(1)]);
    assert(Seq::<Op>::empty().push(Op::Jz(0)) =~= seq![Op::Jz(0)]);
    assert(Seq::<Op>::empty().push(Op::Jnz(0)) =~= seq![Op::Jnz(0)]);
}

/// The commands of two texts one after the other are the commands of the
/// first followed by those of the second.
pub proof fn lemma_tokens_concat(a: Seq<u8>, b: Seq<u8>)
    ensures
        tokens(a + b) == tokens(a) + tokens(b),
    decreases b.len(),
{
    if b.len() == 0 {
        assert(a + b =~= a);
        assert(tokens(a) + tokens(b) =~= tokens(a));
    } else {
        lemma_tokens_concat(a, b.drop_last());
        assert((a + b).drop_last() =~= a + b.drop_last());
        assert((a + b).last() == b.last());
        match byte_op(b.last()) {
            Some(op) => {
                assert(tokens(a) + tokens(b) =~= (tokens(a) + tokens(b.drop_last())).push(op));
            },
            None => {},
        }
    }
}

proof fn lemma_tokens_high(bs: Seq<u8>)
    requires
        bs.len() <= 4,
        forall|i: int| 0 <= i < bs.len() ==> bs[i] >= 0x80,
    ensures
        tokens(bs) == Seq::<Op>::empty(),
    decreases bs.len(),
{
    if bs.len() > 0 {
        lemma_tokens_high(bs.drop_last());
    }
}

proof fn lemma_tokens_scalar(c: char)
    ensures
        tokens(encode_scalar(c as u32)) == match char_op(c) {
            Some(op) => seq![op],
            None => Seq::<Op>::empty(),
        },
{
    let v = c as u32;
    let e = encode_scalar(v);
    if has_width_1_encoding(v) {
        assert((v & 0x7f) as u8 == v as u8) by (bit_vector)
            requires
                v <= 0x7f,
        ;
        assert(e == seq![v as u8]);
        assert(e.drop_last() =~= Seq::<u8>::empty());
        assert(e.last() == v as u8);
        assert(tokens(e.drop_last()) == Seq::<Op>::empty());
        match byte_op(v as u8) {
            Some(op) => {
                assert(tokens(e) == Seq::<Op>::empty().push(op));
                assert(Seq::<Op>::empty().push(op) =~= seq![op]);
            },
            None => {
                assert(tokens(e) == Seq::<Op>::empty());
            },
        }
    } else {
        assert forall|x: u32| #[trigger] (0x80u8 | (x as u8)) >= 0x80 by {
            assert((0x80u8 | (x as u8)) >= 0x80) by (bit_vector);
        }
        assert forall|x: u32| #[trigger] (0xC0u8 | (x as u8)) >= 0x80 by {
            assert((0xC0u8 | (x as u8)) >= 0x80) by (bit_vector);
        }
        assert forall|x: u32| #[trigger] (0xE0u8 | (x as u8)) >= 0x80 by {
            assert((0xE0u8 | (x as u8)) >= 0x80) by (bit_vector);
        }
        assert forall|x: u32| #[trigger] (0xF0u8 | (x as u8)) >= 0x80 by {
            assert((0xF0u8 | (x as u8)) >= 0x80) by (bit_vector);
        }
        assert(forall|i: int| 0 <= i < e.len() ==> e[i] >= 0x80);
        lemma_tokens_high(e);
        assert(char_op(c) is None);
    }
}

/// Reading the source byte by byte finds the same commands as reading it
/// character by character: every byte of a multi-byte UTF-8 character is
/// at least 0x80, and no command is.
pub proof fn lemma_tokens_of_chars(cs: Seq<char>)
    ensures
        tokens(encode_utf8(cs)) == char_tokens(cs),
    decreases cs.len(),
{
    if cs.len() > 0 {
        lemma_tokens_of_chars(cs.drop_first());
        lemma_tokens_concat(encode_scalar(cs[0] as u32), encode_utf8(cs.drop_first()));
        lemma_tokens_scalar(cs[0]);
    }
}

/// The `Jz` at `i` names a later `Jnz` that names it back.
pub proof fn lemma_wm_jz(ops: Seq<Op>, i: int)
    requires
        well_matched(ops),
        0 <= i < ops.len(),
        ops[i] is Jz,
    ensures
        i < ops[i]->Jz_0 < ops.len(),
        ops[ops[i]->Jz_0 as int] == Op::Jnz(i as usize),
{
    reveal(well_matched);
}

/// The `Jnz` at `j` names an earlier `Jz` that names it back.
pub proof fn lemma_wm_jnz(ops: Seq<Op>, j: int)
    requires
        well_matched(ops),
        0 <= j < ops.len(),
        ops[j] is Jnz,
    ensures
        ops[j]->Jnz_0 < j,
        ops[ops[j]->Jnz_0 as int] == Op::Jz(j as usize),
{
    reveal(well_matched);
}

/// A loop opened inside the loop opened at `i` also closes inside it.
pub proof fn lemma_wm_nested(ops: Seq<Op>, i: int, k: int)
    requires
        well_matched(ops),
        0 <= i < k < ops.len(),
        ops[i] is Jz,
        ops[k] is Jz,
        k < ops[i]->Jz_0,
    ensures
        ops[k]->Jz_0 < ops[i]->Jz_0,
{
    reveal(well_matched);
}


// ---------------------------------------------------------------------------
// Loop depth
// ---------------------------------------------------------------------------

/// Number of `Jz` minus number of `Jnz` in a sequence of instructions.
pub open spec fn jump_depth(ops: Seq<Op>) -> int
    decreases ops.len(),
{
    if ops.len() == 0 {
        0
    } else {
        jump_depth(ops.drop_last()) + if ops.last() is Jz {
            1int
        } else if ops.last() is Jnz {
            -1int
        } else {
            0int
        }
    }
}

proof fn lemma_jump_depth_concat(a: Seq<Op>, b: Seq<Op>)
    ensures
        jump_depth(a + b) == jump_depth(a) + jump_depth(b),
    decreases b.len(),
{
    if b.len() == 0 {
        assert(a + b =~= a);
    } else {
        lemma_jump_depth_concat(a, b.drop_last());
        assert((a + b).drop_last() =~= a + b.drop_last());
        assert((a + b).last() == b.last());
    }
}

proof fn lemma_jump_depth_split(ops: Seq<Op>, x: int, y: int, z: int)
    requires
        0 <= x <= y <= z <= ops.len(),
    ensures
        jump_depth(ops.subrange(x, z)) == jump_depth(ops.subrange(x, y)) + jump_depth(
            ops.subrange(y, z),
        ),
{
    assert(ops.subrange(x, z) =~= ops.subrange(x, y) + ops.subrange(y, z));
    lemma_jump_depth_concat(ops.subrange(x, y), ops.subrange(y, z));
}

proof fn lemma_jump_depth_one(ops: Seq<Op>, x: int)
    requires
        0 <= x < ops.len(),
    ensures
        jump_depth(ops.subrange(x, x + 1)) == if ops[x] is Jz {
            1int
        } else if ops[x] is Jnz {
            -1int
        } else {
            0int
        },
{
    let r = ops.subrange(x, x + 1);
    assert(r.drop_last() =~= Seq::<Op>::empty());
    assert(jump_depth(r.drop_last()) == 0);
    assert(r.last() == ops[x]);
}

/// Every loop that opens in `[x, y)` closes there, and every loop that
/// closes there opened there.
spec fn self_contained(ops: Seq<Op>, x: int, y: int) -> bool {
    forall|k: int|
        x <= k < y ==> (#[trigger] ops[k] is Jz ==> ops[k]->Jz_0 < y) && (ops[k] is Jnz
            ==> ops[k]->Jnz_0 >= x)
}

proof fn lemma_contained_depth(ops: Seq<Op>, x: int, y: int)
    requires
        well_matched(ops),
        ops.len() <= usize::MAX,
        0 <= x <= y <= ops.len(),
        self_contained(ops, x, y),
    ensures
        jump_depth(ops.subrange(x, y)) == 0,
        forall|z: int| x <= z <= y ==> jump_depth(#[trigger] ops.subrange(x, z)) >= 0,
    decreases y - x,
{
    if x == y {
        assert forall|z: int| x <= z <= y implies jump_depth(#[trigger] ops.subrange(x, z))
            >= 0 by {
            assert(ops.subrange(x, z) =~= Seq::<Op>::empty());
        }
        assert(ops.subrange(x, y) =~= Seq::<Op>::empty());
    } else if ops[x] is Jnz {
        lemma_wm_jnz(ops, x);
    } else if ops[x] is Jz {
        lemma_wm_jz(ops, x);
        let t = ops[x]->Jz_0 as int;
        // the inside of the loop
        assert forall|k: int| x + 1 <= k < t implies (#[trigger] ops[k] is Jz ==> ops[k]->Jz_0
            < t) && (ops[k] is Jnz ==> ops[k]->Jnz_0 >= x + 1) by {
            if ops[k] is Jz {
                lemma_wm_nested(ops, x, k);
            }
            if ops[k] is Jnz {
                lemma_wm_jnz(ops, k);
                let a = ops[k]->Jnz_0 as int;
                lemma_wm_jz(ops, a);
                if a < x {
                    lemma_wm_nested(ops, a, x);
                }
            }
        }
        // what follows the loop
        assert forall|k: int| t + 1 <= k < y implies (#[trigger] ops[k] is Jz ==> ops[k]->Jz_0
            < y) && (ops[k] is Jnz ==> ops[k]->Jnz_0 >= t + 1) by {
            if ops[k] is Jnz {
                lemma_wm_jnz(ops, k);
                let a = ops[k]->Jnz_0 as int;
                assert(a >= x);
                lemma_wm_jz(ops, a);
                assert(ops[a] == Op::Jz(k as usize));
                if x < a < t {
                    lemma_wm_nested(ops, x, a);
                } else if a == x {
                    assert(t == k);
                } else if a == t {
                    assert(ops[t] == Op::Jnz(x as usize));
                }
            }
        }
        lemma_contained_depth(ops, x + 1, t);
        lemma_contained_depth(ops, t + 1, y);
        lemma_jump_depth_one(ops, x);
        lemma_jump_depth_one(ops, t);
        lemma_jump_depth_split(ops, x, x + 1, t);
        lemma_jump_depth_split(ops, x, t, t + 1);
        lemma_jump_depth_split(ops, x, t + 1, y);
        assert forall|z: int| x <= z <= y implies jump_depth(#[trigger] ops.subrange(x, z))
            >= 0 by {
            if z == x {
                assert(ops.subrange(x, z) =~= Seq::<Op>::empty());
            } else if z <= t {
                lemma_jump_depth_split(ops, x, x + 1, z);
                assert(jump_depth(ops.subrange(x + 1, z)) >= 0);
            } else if z > t + 1 {
                lemma_jump_depth_split(ops, x, t + 1, z);
                assert(jump_depth(ops.subrange(t + 1, z)) >= 0);
            }
        }
    } else {
        assert forall|k: int| x + 1 <= k < y implies (#[trigger] ops[k] is Jz ==> ops[k]->Jz_0
            < y) && (ops[k] is Jnz ==> ops[k]->Jnz_0 >= x + 1) by {
            if ops[k] is Jnz {
                lemma_wm_jnz(ops, k);
            }
        }
        lemma_contained_depth(ops, x + 1, y);
        lemma_jump_depth_one(ops, x);
        lemma_jump_depth_split(ops, x, x + 1, y);
        assert forall|z: int| x <= z <= y implies jump_depth(#[trigger] ops.subrange(x, z))
            >= 0 by {
            if z == x {
                assert(ops.subrange(x, z) =~= Seq::<Op>::empty());
            } else {
                lemma_jump_depth_split(ops, x, x + 1, z);
                assert(jump_depth(ops.subrange(x + 1, z)) >= 0);
            }
        }
    }
}

/// In a well-matched program every prefix opens at least as many loops as
/// it closes, and the whole program closes all it opens.
pub proof fn lemma_well_matched_depth(ops: Seq<Op>)
    requires
        well_matched(ops),
        ops.len() <= usize::MAX,
    ensures
        jump_depth(ops) == 0,
        forall|z: int| 0 <= z <= ops.len() ==> jump_depth(#[trigger] ops.take(z)) >= 0,
{
    let n = ops.len() as int;
    assert forall|k: int| 0 <= k < n implies (#[trigger] ops[k] is Jz ==> ops[k]->Jz_0 < n) && (
    ops[k] is Jnz ==> ops[k]->Jnz_0 >= 0) by {
        if ops[k] is Jz {
            lemma_wm_jz(ops, k);
        }
    }
    lemma_contained_depth(ops, 0, n);
    assert(ops.subrange(0, n) =~= ops);
    assert forall|z: int| 0 <= z <= n implies jump_depth(#[trigger] ops.take(z)) >= 0 by {
        assert(ops.take(z) =~= ops.subrange(0, z));
    }
}

// ---------------------------------------------------------------------------
// Uniqueness of the matching
// ---------------------------------------------------------------------------

spec fn tgt(ops: Seq<Op>, i: int) -> int {
    ops[i]->Jz_0 as int
}

spec fn agree_below(a: Seq<Op>, b: Seq<Op>, bound: int) -> bool {
    forall|i: int|
        0 <= i < a.len() && (#[trigger] a[i]) is Jz && (tgt(a, i) < bound || tgt(b, i) < bound)
            ==> tgt(a, i) == tgt(b, i)
}

proof fn lemma_shapes_index(a: Seq<Op>, b: Seq<Op>, k: int)
    requires
        shapes(a) == shapes(b),
        0 <= k < a.len(),
    ensures
        a.len() == b.len(),
        a[k] is Jz <==> b[k] is Jz,
        a[k] is Jnz <==> b[k] is Jnz,
        !is_jump_op(a[k]) ==> a[k] == b[k],
{
    assert(shapes(a).len() == a.len());
    assert(shapes(b).len() == b.len());
    assert(shapes(a)[k] == shape(a[k]));
    assert(shapes(b)[k] == shape(b[k]));
}

/// If the loop opened at `i` closes at `bound` in `a`, it closes there in `b`
/// too, given that all loops closing earlier agree.
proof fn lemma_agree_step(a: Seq<Op>, b: Seq<Op>, bound: int, i: int)
    requires
        well_matched(a),
        well_matched(b),
        shapes(a) == shapes(b),
        agree_below(a, b, bound),
        agree_below(b, a, bound),
        a.len() <= usize::MAX,
        0 <= i < a.len(),
        a[i] is Jz,
        tgt(a, i) == bound,
    ensures
        tgt(b, i) == bound,
{
    lemma_shapes_index(a, b, i);
    let j = bound;
    lemma_wm_jz(a, i);
    if tgt(b, i) != j {
        assert(b[i] is Jz);
        assert(tgt(b, i) >= j);
        lemma_shapes_index(a, b, j);
        assert(b[j] is Jnz);
        lemma_wm_jnz(b, j);
        let bb = b[j]->Jnz_0 as int;
        assert(tgt(b, bb) == j);
        assert(bb != i);
        lemma_shapes_index(a, b, bb);
        assert(a[bb] is Jz);
        if tgt(a, bb) < j {
            assert(tgt(a, bb) == tgt(b, bb));
        } else if tgt(a, bb) == j {
            lemma_wm_jz(a, bb);
        } else if bb < i {
            lemma_wm_nested(b, bb, i);
        } else {
            lemma_wm_nested(a, i, bb);
        }
    }
}

proof fn lemma_agree_below(a: Seq<Op>, b: Seq<Op>, bound: nat)
    requires
        well_matched(a),
        well_matched(b),
        shapes(a) == shapes(b),
        a.len() <= usize::MAX,
    ensures
        agree_below(a, b, bound as int),
        agree_below(b, a, bound as int),
    decreases bound,
{
    assert(shapes(a).len() == a.len());
    assert(shapes(b).len() == b.len());
    if bound > 0 {
        let j = bound - 1;
        lemma_agree_below(a, b, (bound - 1) as nat);
        assert forall|i: int|
            0 <= i < a.len() && (#[trigger] a[i]) is Jz && (tgt(a, i) < bound || tgt(b, i)
                < bound) implies tgt(a, i) == tgt(b, i) by {
            lemma_shapes_index(a, b, i);
            if tgt(a, i) == j {
                lemma_agree_step(a, b, j, i);
            } else if tgt(b, i) == j {
                lemma_agree_step(b, a, j, i);
            }
        }
        assert forall|i: int|
            0 <= i < b.len() && (#[trigger] b[i]) is Jz && (tgt(b, i) < bound || tgt(a, i)
                < bound) implies tgt(b, i) == tgt(a, i) by {
            lemma_shapes_index(a, b, i);
            if tgt(a, i) == j {
                lemma_agree_step(a, b, j, i);
            } else if tgt(b, i) == j {
                lemma_agree_step(b, a, j, i);
            }
        }
    }
}

/// Two well-matched programs with the same instructions are equal: the jumps
/// of a program are determined by where its loops open and close.
pub proof fn lemma_well_matched_unique(a: Seq<Op>, b: Seq<Op>)
    requires
        well_matched(a),
        well_matched(b),
        shapes(a) == shapes(b),
        a.len() <= usize::MAX,
    ensures
        a == b,
{
    assert(shapes(a).len() == a.len());
    assert(shapes(b).len() == b.len());
    lemma_agree_below(a, b, a.len());
    assert forall|k: int| 0 <= k < a.len() implies a[k] == b[k] by {
        lemma_shapes_index(a, b, k);
        if a[k] is Jz {
            lemma_wm_jz(a, k);
        } else if a[k] is Jnz {
            lemma_wm_jnz(a, k);
            let x = a[k]->Jnz_0 as int;
            lemma_shapes_index(a, b, x);
            assert(tgt(a, x) == k);
            assert(tgt(b, x) == k);
            lemma_wm_jz(b, x);
        }
    }
    assert(a =~= b);
}


/// The commands that a sequence of runs stands for.
pub open spec fn expand(rs: Seq<(Op, nat)>) -> Seq<Op>
    decreases rs.len(),
{
    if rs.len() == 0 {
        Seq::empty()
    } else {
        expand(rs.drop_last()) + Seq::new(rs.last().1, |i: int| rs.last().0)
    }
}

proof fn lemma_runs_last(toks: Seq<Op>)
    requires
        toks.len() > 0,
    ensures
        runs(toks).len() > 0,
        runs(toks).last().0 == toks.last(),
        runs(toks).last().1 >= 1,
{
}

/// Grouping commands into runs loses nothing: the runs, each written out
/// as many times as its length, give back the commands.
pub proof fn lemma_runs_expand(toks: Seq<Op>)
    ensures
        expand(runs(toks)) == toks,
    decreases toks.len(),
{
    if toks.len() > 0 {
        let p = toks.drop_last();
        let t = toks.last();
        let prev = runs(p);
        lemma_runs_expand(p);
        if !is_jump_op(t) && toks.len() >= 2 && toks[toks.len() - 2] == t && prev.len() > 0 {
            lemma_runs_last(p);
            let c = prev.last().1;
            let r = prev.update(prev.len() - 1, (t, c + 1));
            assert(r.drop_last() =~= prev.drop_last());
            assert(expand(prev) == expand(prev.drop_last()) + Seq::new(c, |i: int| t));
            assert(Seq::new(c + 1, |i: int| t) =~= Seq::new(c, |i: int| t).push(t));
            assert(toks =~= p.push(t));
            assert(expand(r) =~= toks);
        } else {
            let r = prev.push((t, 1nat));
            assert(r.drop_last() =~= prev);
            assert(Seq::new(1nat, |i: int| t) =~= seq![t]);
            assert(expand(r) =~= toks);
        }
    }
}

// ---------------------------------------------------------------------------
// Facts about prefixes of the source
// ---------------------------------------------------------------------------

proof fn lemma_prefix_step(src: Seq<u8>, i: int)
    requires
        0 <= i < src.len(),
    ensures
        tokens(src.take(i + 1)) == (match byte_op(src[i]) {
            Some(op) => tokens(src.take(i)).push(op),
            None => tokens(src.take(i)),
        }),
        bracket_depth(src.take(i + 1)) == bracket_depth(src.take(i)) + if src[i] == 91 {
            1int
        } else if src[i] == 93 {
            -1int
        } else {
            0int
        },
{
    assert(src.take(i + 1).drop_last() =~= src.take(i));
    assert(src.take(i + 1).last() == src[i]);
}

spec fn pointwise_le(r1: Seq<(Op, nat)>, r2: Seq<(Op, nat)>) -> bool {
    &&& r1.len() <= r2.len()
    &&& forall|k: int| 0 <= k < r1.len() ==> #[trigger] r1[k].1 <= r2[k].1
}

proof fn lemma_runs_push(p: Seq<Op>, t: Op)
    ensures
        pointwise_le(runs(p), runs(p.push(t))),
{
    assert(p.push(t).drop_last() =~= p);
}

proof fn lemma_runs_prefix(src: Seq<u8>, i: int)
    requires
        0 <= i <= src.len(),
    ensures
        pointwise_le(runs(tokens(src.take(i))), runs(tokens(src))),
    decreases src.len() - i,
{
    if i == src.len() {
        assert(src.take(i) =~= src);
    } else {
        lemma_prefix_step(src, i);
        lemma_runs_prefix(src, i + 1);
        match byte_op(src[i]) {
            Some(op) => lemma_runs_push(tokens(src.take(i)), op),
            None => {},
        }
    }
}

// ---------------------------------------------------------------------------
// The pending loops during parsing
// ---------------------------------------------------------------------------

/// What holds of the instructions emitted so far and of the stack of loops:
/// the stack holds one entry per `Jz` emitted (its position is `idx`), the
/// entries below `len - nopen` are closed loops, those above are open ones
/// in order of opening.
#[verifier::opaque]
spec fn parse_inv(ops: Seq<Op>, st: Seq<Jumps>, idx: Seq<int>, nopen: int) -> bool {
    let n = st.len() as int;
    let c = n - nopen;
    &&& idx.len() == ops.len()
    &&& 0 <= nopen <= n
    &&& forall|t: int|
        0 <= t < n ==> (#[trigger] st[t]).start < ops.len() && ops[st[t].start as int] == Op::Jz(
            0,
        ) && idx[st[t].start as int] == t
    &&& forall|k: int|
        0 <= k < ops.len() && (#[trigger] ops[k]) is Jz ==> 0 <= idx[k] < n && st[idx[k]].start
            == k
    &&& forall|t: int|
        0 <= t < c ==> (#[trigger] st[t]).start < st[t].end < ops.len() && ops[st[t].end as int]
            == Op::Jnz(st[t].start)
    &&& forall|t: int| c <= t < n ==> (#[trigger] st[t]).end == 0
    &&& forall|t1: int, t2: int|
        c <= t1 < t2 < n ==> (#[trigger] st[t1]).start < (#[trigger] st[t2]).start
    &&& forall|e: int|
        0 <= e < ops.len() && (#[trigger] ops[e]) is Jnz ==> {
            let a = ops[e]->Jnz_0 as int;
            &&& 0 <= a < ops.len()
            &&& ops[a] is Jz
            &&& idx[a] < c
            &&& st[idx[a]].end == e
        }
    &&& forall|t: int, k: int|
        0 <= t < c && (#[trigger] st[t]).start < k < st[t].end && (#[trigger] ops[k]) is Jz
            ==> idx[k] < c && st[idx[k]].end < st[t].end
}

proof fn lemma_inv_push_plain(ops: Seq<Op>, st: Seq<Jumps>, idx: Seq<int>, nopen: int, op: Op)
    requires
        parse_inv(ops, st, idx, nopen),
        !is_jump_op(op),
    ensures
        parse_inv(ops.push(op), st, idx.push(-1), nopen),
{
    reveal(parse_inv);
    let ops2 = ops.push(op);
    let idx2 = idx.push(-1);
    let n = st.len() as int;
    let c = n - nopen;
    assert forall|t: int| 0 <= t < n implies (#[trigger] st[t]).start < ops2.len()
        && ops2[st[t].start as int] == Op::Jz(0) && idx2[st[t].start as int] == t by {}
    assert forall|k: int| 0 <= k < ops2.len() && (#[trigger] ops2[k]) is Jz implies 0 <= idx2[k]
        < n && st[idx2[k]].start == k by {
        assert(ops2[k] == ops[k]);
    }
    assert forall|t: int| 0 <= t < c implies (#[trigger] st[t]).start < st[t].end < ops2.len()
        && ops2[st[t].end as int] == Op::Jnz(st[t].start) by {}
    assert forall|e: int| 0 <= e < ops2.len() && (#[trigger] ops2[e]) is Jnz implies {
        let a = ops2[e]->Jnz_0 as int;
        &&& 0 <= a < ops2.len()
        &&& ops2[a] is Jz
        &&& idx2[a] < c
        &&& st[idx2[a]].end == e
    } by {
        assert(ops2[e] == ops[e]);
    }
    assert forall|t: int, k: int|
        0 <= t < c && (#[trigger] st[t]).start < k < st[t].end && (#[trigger] ops2[k]) is Jz
            implies idx2[k] < c && st[idx2[k]].end < st[t].end by {
        assert(ops2[k] == ops[k]);
    }
}

proof fn lemma_inv_push_open(ops: Seq<Op>, st: Seq<Jumps>, idx: Seq<int>, nopen: int)
    requires
        parse_inv(ops, st, idx, nopen),
        ops.len() <= usize::MAX,
    ensures
        parse_inv(
            ops.push(Op::Jz(0)),
            st.push(Jumps { start: ops.len() as usize, end: 0 }),
            idx.push(st.len() as int),
            nopen + 1,
        ),
{
    reveal(parse_inv);
    let m = ops.len() as int;
    let ops2 = ops.push(Op::Jz(0));
    let st2 = st.push(Jumps { start: m as usize, end: 0 });
    let idx2 = idx.push(st.len() as int);
    let n = st.len() as int;
    let c = n - nopen;
    assert forall|t: int| 0 <= t < n + 1 implies (#[trigger] st2[t]).start < ops2.len()
        && ops2[st2[t].start as int] == Op::Jz(0) && idx2[st2[t].start as int] == t by {
        if t < n {
            assert(st2[t] == st[t]);
        }
    }
    assert forall|k: int| 0 <= k < ops2.len() && (#[trigger] ops2[k]) is Jz implies 0 <= idx2[k]
        < n + 1 && st2[idx2[k]].start == k by {
        if k < m {
            assert(ops2[k] == ops[k]);
            assert(st2[idx[k]] == st[idx[k]]);
        }
    }
    assert forall|t: int| 0 <= t < c implies (#[trigger] st2[t]).start < st2[t].end < ops2.len()
        && ops2[st2[t].end as int] == Op::Jnz(st2[t].start) by {
        assert(st2[t] == st[t]);
    }
    assert forall|t: int| c <= t < n + 1 implies (#[trigger] st2[t]).end == 0 by {
        if t < n {
            assert(st2[t] == st[t]);
        }
    }
    assert forall|t1: int, t2: int| c <= t1 < t2 < n + 1 implies (#[trigger] st2[t1]).start < (
    #[trigger] st2[t2]).start by {
        assert(st2[t1] == st[t1]);
        if t2 < n {
            assert(st2[t2] == st[t2]);
        }
    }
    assert forall|e: int| 0 <= e < ops2.len() && (#[trigger] ops2[e]) is Jnz implies {
        let a = ops2[e]->Jnz_0 as int;
        &&& 0 <= a < ops2.len()
        &&& ops2[a] is Jz
        &&& idx2[a] < c
        &&& st2[idx2[a]].end == e
    } by {
        assert(ops2[e] == ops[e]);
        let a = ops[e]->Jnz_0 as int;
        assert(ops[a] is Jz);
        assert(st2[idx[a]] == st[idx[a]]);
    }
    assert forall|t: int, k: int|
        0 <= t < c && (#[trigger] st2[t]).start < k < st2[t].end && (#[trigger] ops2[k]) is Jz
            implies idx2[k] < c && st2[idx2[k]].end < st2[t].end by {
        assert(st2[t] == st[t]);
        assert(ops2[k] == ops[k]);
        assert(st2[idx[k]] == st[idx[k]]);
    }
}

spec fn idx_after_close(idx: Seq<int>, s: int) -> Seq<int> {
    Seq::new(
        idx.len() + 1,
        |k: int|
            if k == idx.len() {
                -1
            } else if k == s {
                0
            } else {
                idx[k] + 1
            },
    )
}

#[verifier::rlimit(40)]
proof fn lemma_inv_push_close(ops: Seq<Op>, st: Seq<Jumps>, idx: Seq<int>, nopen: int)
    requires
        parse_inv(ops, st, idx, nopen),
        nopen > 0,
        ops.len() <= usize::MAX,
    ensures
        st.len() > 0,
        st.last().end == 0,
        parse_inv(
            ops.push(Op::Jnz(st.last().start)),
            seq![Jumps { start: st.last().start, end: ops.len() as usize }] + st.drop_last(),
            idx_after_close(idx, st.last().start as int),
            nopen - 1,
        ),
{
    reveal(parse_inv);
    let m = ops.len() as int;
    let n = st.len() as int;
    let c = n - nopen;
    let s = st[n - 1].start as int;
    assert(st.last() == st[n - 1]);
    let ops2 = ops.push(Op::Jnz(s as usize));
    let st2 = seq![Jumps { start: s as usize, end: m as usize }] + st.drop_last();
    let idx2 = idx_after_close(idx, s);
    let c2 = c + 1;
    assert(st2.len() == n);
    assert(st2[0] == Jumps { start: s as usize, end: m as usize });
    assert forall|t: int| 1 <= t < n implies st2[t] == st[t - 1] by {}
    assert(idx[s] == n - 1);
    // entries point to unpatched Jz instructions
    assert forall|t: int| 0 <= t < n implies (#[trigger] st2[t]).start < ops2.len()
        && ops2[st2[t].start as int] == Op::Jz(0) && idx2[st2[t].start as int] == t by {
        if t > 0 {
            assert(st2[t] == st[t - 1]);
            let k = st[t - 1].start as int;
            assert(idx[k] == t - 1);
            assert(k != s);
        }
    }
    // every Jz is on the stack
    assert forall|k: int| 0 <= k < ops2.len() && (#[trigger] ops2[k]) is Jz implies 0 <= idx2[k]
        < n && st2[idx2[k]].start == k by {
        assert(k < m);
        assert(ops2[k] == ops[k]);
        if k != s {
            let t = idx[k];
            assert(st[t].start == k);
            assert(t != n - 1);
            assert(st2[t + 1] == st[t]);
        }
    }
    // closed loops
    assert forall|t: int| 0 <= t < c2 implies (#[trigger] st2[t]).start < st2[t].end < ops2.len()
        && ops2[st2[t].end as int] == Op::Jnz(st2[t].start) by {
        if t == 0 {
            assert(ops[s] == Op::Jz(0));
        } else {
            assert(st2[t] == st[t - 1]);
        }
    }
    // open loops
    assert forall|t: int| c2 <= t < n implies (#[trigger] st2[t]).end == 0 by {
        assert(st2[t] == st[t - 1]);
    }
    assert forall|t1: int, t2: int| c2 <= t1 < t2 < n implies (#[trigger] st2[t1]).start < (
    #[trigger] st2[t2]).start by {
        assert(st2[t1] == st[t1 - 1]);
        assert(st2[t2] == st[t2 - 1]);
    }
    // every Jnz closes a closed loop
    assert forall|e: int| 0 <= e < ops2.len() && (#[trigger] ops2[e]) is Jnz implies {
        let a = ops2[e]->Jnz_0 as int;
        &&& 0 <= a < ops2.len()
        &&& ops2[a] is Jz
        &&& idx2[a] < c2
        &&& st2[idx2[a]].end == e
    } by {
        if e == m {
            assert(ops[s] == Op::Jz(0));
        } else {
            assert(ops2[e] == ops[e]);
            let a = ops[e]->Jnz_0 as int;
            assert(ops[a] is Jz);
            assert(idx[a] < c);
            assert(a != s);
            assert(st2[idx[a] + 1] == st[idx[a]]);
        }
    }
    // nesting
    assert forall|t: int, k: int|
        0 <= t < c2 && (#[trigger] st2[t]).start < k < st2[t].end && (#[trigger] ops2[k]) is Jz
            implies idx2[k] < c2 && st2[idx2[k]].end < st2[t].end by {
        assert(k < m);
        assert(ops2[k] == ops[k]);
        let tk = idx[k];
        assert(st[tk].start == k);
        if t == 0 {
            // k lies between the loop just closed and its closing: it cannot be open
            if tk >= c {
                if tk < n - 1 {
                    assert(st[tk].start < st[n - 1].start);
                }
            }
            assert(tk < c);
            assert(st2[tk + 1] == st[tk]);
        } else {
            assert(st2[t] == st[t - 1]);
            assert(tk < c);
            assert(k != s);
            assert(st2[tk + 1] == st[tk]);
        }
    }
}

/// The instructions with every `Jz` pointed at the end of its loop.
spec fn patched(ops: Seq<Op>, st: Seq<Jumps>, idx: Seq<int>) -> Seq<Op> {
    Seq::new(
        ops.len(),
        |k: int|
            if ops[k] is Jz {
                Op::Jz(st[idx[k]].end)
            } else {
                ops[k]
            },
    )
}

proof fn lemma_patched(ops: Seq<Op>, st: Seq<Jumps>, idx: Seq<int>)
    requires
        parse_inv(ops, st, idx, 0),
    ensures
        well_matched(patched(ops, st, idx)),
        shapes(patched(ops, st, idx)) == shapes(ops),
{
    reveal(parse_inv);
    reveal(well_matched);
    let p = patched(ops, st, idx);
    assert forall|i: int| 0 <= i < p.len() && (#[trigger] p[i]) is Jz implies i < p[i]->Jz_0
        < p.len() && p[p[i]->Jz_0 as int] == Op::Jnz(i as usize) by {
        assert(ops[i] is Jz);
        let t = idx[i];
        assert(st[t].start == i);
        assert(ops[st[t].end as int] == Op::Jnz(st[t].start));
    }
    assert forall|j: int| 0 <= j < p.len() && (#[trigger] p[j]) is Jnz implies p[j]->Jnz_0 < j
        && p[p[j]->Jnz_0 as int] == Op::Jz(j as usize) by {
        assert(ops[j] is Jnz);
        let a = ops[j]->Jnz_0 as int;
        assert(ops[a] is Jz);
        let t = idx[a];
        assert(st[t].start == a);
    }
    assert forall|i: int, k: int|
        0 <= i < k < p.len() && (#[trigger] p[i]) is Jz && (#[trigger] p[k]) is Jz && k
            < p[i]->Jz_0 implies p[k]->Jz_0 < p[i]->Jz_0 by {
        assert(ops[i] is Jz);
        assert(ops[k] is Jz);
        let t = idx[i];
        assert(st[t].start == i);
    }
    assert forall|k: int| 0 <= k < ops.len() implies shapes(p)[k] == shapes(ops)[k] by {}
    assert(shapes(p) =~= shapes(ops));
}

// ---------------------------------------------------------------------------
// Parsing
// ---------------------------------------------------------------------------

/// What holds between the instructions emitted so far, the run being
/// collected (`last`, `operand`) and the commands read so far.
spec fn pending_ok(ops: Seq<Op>, last: Option<Op>, operand: u32, p: Seq<Op>, compress: bool) -> bool {
    if !compress {
        last is None && shapes(ops) == p
    } else {
        match last {
            None => operand == 0 && shapes(ops) == skeleton(p, true) && (p.len() == 0
                || is_jump_op(p.last())),
            Some(l) => {
                &&& !is_jump_op(l)
                &&& p.len() > 0
                &&& p.last() == l
                &&& runs(p).len() == ops.len() + 1
                &&& runs(p).last() == (l, operand as nat)
                &&& shapes(ops) == skeleton(p, true).drop_last()
            },
        }
    }
}

proof fn lemma_shapes_push(ops: Seq<Op>, op: Op)
    ensures
        shapes(ops.push(op)) == shapes(ops).push(shape(op)),
{
    assert(shapes(ops.push(op)) =~= shapes(ops).push(shape(op)));
}

proof fn lemma_skeleton_push(p: Seq<Op>, r: Seq<(Op, nat)>, q: Seq<(Op, nat)>)
    requires
        q == r.push(q.last()),
        q.len() > 0,
    ensures
        q.map_values(|x: (Op, nat)| with_operand(x.0, x.1)) == r.map_values(
            |x: (Op, nat)| with_operand(x.0, x.1),
        ).push(with_operand(q.last().0, q.last().1)),
{
    assert(q.map_values(|x: (Op, nat)| with_operand(x.0, x.1)) =~= r.map_values(
        |x: (Op, nat)| with_operand(x.0, x.1),
    ).push(with_operand(q.last().0, q.last().1)));
}

impl Op {
    /// Whether the instruction is a `Jz` or a `Jnz`.
    pub fn is_jump(&self) -> (r: bool)
        ensures
            r == is_jump_op(*self),
    {
        match self {
            Op::Jz(_) | Op::Jnz(_) => true,
            _ => false,
        }
    }

    /// The instruction for `self` with the given count; a `Jz` opens a loop
    /// on the stack, a `Jnz` closes the innermost open one (on top of the
    /// stack) and moves it, closed, to the bottom.
    fn create_instruction(&self, operand: u32, stack: &mut Stack<Jumps>, index: usize) -> (r: Op)
        requires
            *self is Jnz ==> old(stack)@.len() > 0 && old(stack)@.last().end == 0,
        ensures
            match *self {
                Op::Jz(_) => r == Op::Jz(0) && final(stack)@ == old(stack)@.push(
                    Jumps { start: index, end: 0 },
                ),
                Op::Jnz(_) => r == Op::Jnz(old(stack)@.last().start) && final(stack)@ == seq![
                    Jumps { start: old(stack)@.last().start, end: index },
                ] + old(stack)@.drop_last(),
                _ => r == with_operand(*self, operand as nat) && final(stack)@ == old(stack)@,
            },
    {
        match *self {
            Op::Inc(_) => Op::Inc(operand),
            Op::Dec(_) => Op::Dec(operand),
            Op::Left(_) => Op::Left(operand),
            Op::Right(_) => Op::Right(operand),
            Op::In(_) => Op::In(operand),
            Op::Out(_) => Op::Out(operand),
            Op::Jz(_) => {
                // The position of the matching Jnz is not known yet.
                stack.push(Jumps::new(index, 0));
                Op::Jz(0)
            },
            Op::Jnz(_) => {
                let mut jump = stack.pop();
                let jz_index = jump.start;
                jump.end = index;
                // Kept at the bottom until the Jz is patched.
                stack.insert_first(jump);
                Op::Jnz(jz_index)
            },
        }
    }

    /// Handles one command when runs are merged: emits the run collected so
    /// far when this command ends it, and emits a jump at once.
    fn take_command_compressed(
        op: Op,
        ops: &mut Vec<Op>,
        stack: &mut Stack<Jumps>,
        last_op: &mut Option<Op>,
        operand: &mut u32,
        Ghost(p): Ghost<Seq<Op>>,
        Ghost(idx): Ghost<Seq<int>>,
        Ghost(nopen): Ghost<int>,
    ) -> (g: Ghost<(Seq<int>, int)>)
        requires
            parse_inv(old(ops)@, old(stack)@, idx, nopen),
            pending_ok(old(ops)@, *old(last_op), *old(operand), p, true),
            runs_fit(p.push(op)),
            op is Jnz ==> nopen > 0,
        ensures
            parse_inv(final(ops)@, final(stack)@, g@.0, g@.1),
            pending_ok(final(ops)@, *final(last_op), *final(operand), p.push(op), true),
            g@.1 == nopen + if op is Jz {
                1int
            } else if op is Jnz {
                -1int
            } else {
                0int
            },
    {
        let ghost p2 = p.push(op);
        let ghost r = runs(p);
        let ghost mut idx = idx;
        let ghost mut nopen = nopen;
        proof {
            assert(p2.drop_last() =~= p);
            assert(p2.last() == op);
            if p2.len() >= 2 {
                assert(p2[p2.len() - 2] == p.last());
            }
            assert(shapes(ops@).len() == ops@.len());
            assert(skeleton(p, true).len() == r.len());
        }
        let differs = match *last_op {
            Some(l) => l != op,
            None => true,
        };
        let create = if op.is_jump() {
            true
        } else if differs {
            if last_op.is_none() {
                // Nothing collected yet: nothing to emit.
                false
            } else {
                true
            }
        } else {
            false
        };
        let next_op = if create {
            if let Some(l) = *last_op {
                let ghost o1 = ops@;
                let index = ops.len();
                let instr = l.create_instruction(*operand, stack, index);
                ops.push(instr);
                proof {
                    lemma_inv_push_plain(o1, stack@, idx, nopen, instr);
                    idx = idx.push(-1);
                    lemma_shapes_push(o1, instr);
                    assert(r.len() > 0);
                    assert(skeleton(p, true) =~= skeleton(p, true).drop_last().push(
                        with_operand(l, *operand as nat),
                    ));
                }
            }
            *operand = 0;
            if op.is_jump() {
                let ghost o1 = ops@;
                let ghost s1 = stack@;
                let index = ops.len();
                proof {
                    if op is Jnz {
                        lemma_inv_push_close(o1, s1, idx, nopen);
                    }
                }
                let instr = op.create_instruction(0, stack, index);
                ops.push(instr);
                proof {
                    if op is Jz {
                        lemma_inv_push_open(o1, s1, idx, nopen);
                        idx = idx.push(s1.len() as int);
                        nopen = nopen + 1;
                    } else {
                        idx = idx_after_close(idx, s1.last().start as int);
                        nopen = nopen - 1;
                    }
                    lemma_shapes_push(o1, instr);
                    assert(runs(p2) == r.push((op, 1nat)));
                    lemma_skeleton_push(p2, r, runs(p2));
                }
                None
            } else {
                Some(op)
            }
        } else {
            Some(op)
        };
        proof {
            if !is_jump_op(op) && !create && !differs {
                // the run being collected grows by one
                assert(runs(p2) == r.update(r.len() - 1, (op, r.last().1 + 1)));
                let last = r.len() - 1;
                assert(runs(p2)[last].1 == *operand + 1);
            }
        }
        *last_op = next_op;
        if last_op.is_some() {
            *operand += 1;
        }
        proof {
            if !is_jump_op(op) {
                if create || differs {
                    // a new run starts with this command
                    assert(runs(p2) == r.push((op, 1nat)));
                    lemma_skeleton_push(p2, r, runs(p2));
                    assert(skeleton(p2, true).drop_last() =~= skeleton(p, true));
                } else {
                    assert(runs(p2) == r.update(r.len() - 1, (op, r.last().1 + 1)));
                    assert(runs(p2).len() == r.len());
                    assert(skeleton(p2, true).drop_last() =~= skeleton(p, true).drop_last());
                }
            }
        }
        Ghost((idx, nopen))
    }

    /// Emits the instructions of a source text, every `Jz` still pointing at
    /// 0, and leaves every loop, closed, on the stack.
    fn emit_instructions(bytes: &[u8], compress: bool) -> (res: (
        Vec<Op>,
        Stack<Jumps>,
        Ghost<Seq<int>>,
    ))
        requires
            parsable(bytes@, compress),
        ensures
            parse_inv(res.0@, res.1@, res.2@, 0),
            shapes(res.0@) == skeleton(tokens(bytes@), compress),
    {
        let ghost src = bytes@;
        let mut ops: Vec<Op> = Vec::new();
        // No run is being collected before the first command.
        let mut last_op: Option<Op> = None;
        let mut operand: u32 = 0;
        let mut stack: Stack<Jumps> = Stack::new();
        let ghost mut idx: Seq<int> = Seq::empty();
        let ghost mut nopen: int = 0;
        let mut i: usize = 0;
        proof {
            reveal(parse_inv);
            assert(src.take(0) =~= Seq::<u8>::empty());
            assert(shapes(ops@) =~= Seq::<Op>::empty());
            assert(skeleton(Seq::<Op>::empty(), true) =~= Seq::<Op>::empty());
        }
        while i < bytes.len()
            invariant
                bytes@ == src,
                parsable(src, compress),
                0 <= i <= src.len(),
                parse_inv(ops@, stack@, idx, nopen),
                nopen == bracket_depth(src.take(i as int)),
                pending_ok(ops@, last_op, operand, tokens(src.take(i as int)), compress),
            decreases src.len() - i,
        {
            let c = bytes[i];
            let tok: Option<Op> = if c == 43 {
                Some(Op::Inc(1))  // '+'
            } else if c == 45 {
                Some(Op::Dec(1))  // '-'
            } else if c == 60 {
                Some(Op::Left(1))  // '<'
            } else if c == 62 {
                Some(Op::Right(1))  // '>'
            } else if c == 46 {
                Some(Op::Out(1))  // '.'
            } else if c == 44 {
                Some(Op::In(1))  // ','
            } else if c == 91 {
                Some(Op::Jz(0))  // '['
            } else if c == 93 {
                Some(Op::Jnz(0))  // ']'
            } else {
                None
            };
            let ghost p = tokens(src.take(i as int));
            proof {
                lemma_prefix_step(src, i as int);
                assert(src.take(i as int + 1) == src.take((i + 1) as int));
                assert(bracket_depth(src.take((i + 1) as int)) >= 0);
            }
            if let Some(op) = tok {
                if compress {
                    proof {
                        lemma_runs_prefix(src, (i + 1) as int);
                        let r2 = runs(p.push(op));
                        assert forall|k: int| 0 <= k < r2.len() implies #[trigger] r2[k].1
                            <= u32::MAX by {
                            assert(r2[k].1 <= runs(tokens(src))[k].1);
                        }
                    }
                    let g = Self::take_command_compressed(
                        op,
                        &mut ops,
                        &mut stack,
                        &mut last_op,
                        &mut operand,
                        Ghost(p),
                        Ghost(idx),
                        Ghost(nopen),
                    );
                    proof {
                        idx = g@.0;
                        nopen = g@.1;
                    }
                } else {
                    let ghost o1 = ops@;
                    let ghost s1 = stack@;
                    let index = ops.len();
                    proof {
                        if op is Jnz {
                            lemma_inv_push_close(o1, s1, idx, nopen);
                        }
                    }
                    let instr = op.create_instruction(1, &mut stack, index);
                    ops.push(instr);
                    proof {
                        if op is Jz {
                            lemma_inv_push_open(o1, s1, idx, nopen);
                            idx = idx.push(s1.len() as int);
                            nopen = nopen + 1;
                        } else if op is Jnz {
                            idx = idx_after_close(idx, s1.last().start as int);
                            nopen = nopen - 1;
                        } else {
                            lemma_inv_push_plain(o1, s1, idx, nopen, instr);
                            idx = idx.push(-1);
                        }
                        lemma_shapes_push(o1, instr);
                    }
                }
            }
            i += 1;
        }
        proof {
            assert(src.take(src.len() as int) =~= src);
        }
        if compress {
            if let Some(l) = last_op {
                let ghost o1 = ops@;
                let index = ops.len();
                let instr = l.create_instruction(operand, &mut stack, index);
                ops.push(instr);
                proof {
                    lemma_inv_push_plain(o1, stack@, idx, nopen, instr);
                    idx = idx.push(-1);
                    lemma_shapes_push(o1, instr);
                    let p = tokens(src);
                    assert(skeleton(p, true) =~= skeleton(p, true).drop_last().push(
                        with_operand(l, operand as nat),
                    ));
                }
            }
        }
        (ops, stack, Ghost(idx))
    }

    /// Points every `Jz` at the `Jnz` that closes its loop, emptying the
    /// stack of closed loops.
    fn patch_jumps(ops: &mut Vec<Op>, stack: &mut Stack<Jumps>, Ghost(idx): Ghost<Seq<int>>)
        requires
            parse_inv(old(ops)@, old(stack)@, idx, 0),
        ensures
            final(ops)@ == patched(old(ops)@, old(stack)@, idx),
    {
        let ghost before = ops@;
        let ghost st0 = stack@;
        let ghost fin = patched(before, st0, idx);
        proof {
            reveal(parse_inv);
            assert(stack@ =~= st0.take(st0.len() as int));
        }
        while stack.len() > 0
            invariant
                parse_inv(before, st0, idx, 0),
                stack@.len() <= st0.len(),
                stack@ == st0.take(stack@.len() as int),
                ops@.len() == before.len(),
                fin == patched(before, st0, idx),
                forall|k: int|
                    0 <= k < before.len() ==> #[trigger] ops@[k] == if before[k] is Jz && idx[k]
                        < stack@.len() {
                        before[k]
                    } else {
                        fin[k]
                    },
            decreases stack@.len(),
        {
            let ghost n = stack@.len();
            let jump = stack.pop();
            proof {
                reveal(parse_inv);
                assert(jump == st0[n - 1]);
                assert(stack@ =~= st0.take(n - 1));
            }
            ops.set(jump.start, Op::Jz(jump.end));
            proof {
                reveal(parse_inv);
                let s = jump.start as int;
                assert forall|k: int| 0 <= k < before.len() implies #[trigger] ops@[k] == if before[k]
                    is Jz && idx[k] < stack@.len() {
                    before[k]
                } else {
                    fin[k]
                } by {
                    if k != s && before[k] is Jz {
                        assert(st0[idx[k]].start == k);
                    }
                }
            }
        }
        proof {
            assert(ops@ =~= fin);
        }
    }

    /// Parses a source text into a program, merging runs of identical
    /// instructions when `compress` holds. The brackets of the source must
    /// balance.
    pub fn parse_with_compression(source: &str, compress: bool) -> (ops: Vec<Op>)
        requires
            parsable(source.spec_bytes(), compress),
        ensures
            ops@ == program(source.spec_bytes(), compress),
            shapes(ops@) == skeleton(tokens(source.spec_bytes()), compress),
            well_matched(ops@),
    {
        let bytes = source.as_bytes();
        let (mut ops, mut stack, idx) = Self::emit_instructions(bytes, compress);
        let ghost before = ops@;
        let ghost st0 = stack@;
        // All instructions are in place, every Jz pointing at 0: patch each
        // one to the position of the Jnz that closes its loop.
        Self::patch_jumps(&mut ops, &mut stack, idx);
        let n = ops.len();
        proof {
            assert(ops@.len() == n);
            let src = bytes@;
            lemma_patched(before, st0, idx@);
            let fin = ops@;
            let sk = skeleton(tokens(src), compress);
            assert(shapes(fin) == sk);
            let chosen = program(src, compress);
            assert(shapes(chosen) == sk && well_matched(chosen));
            assert(shapes(chosen).len() == chosen.len());
            assert(shapes(fin).len() == fin.len());
            lemma_well_matched_unique(chosen, fin);
        }
        ops
    }

    /// The loop depth at each instruction of a well-matched program: how many
    /// loops enclose it (a `Jz` counts as outside its own loop, a `Jnz` as
    /// inside), the indentation of a listing of the program.
    pub fn dump_levels(ops: &[Op]) -> (levels: Vec<usize>)
        requires
            well_matched(ops@),
        ensures
            levels@.len() == ops@.len(),
            forall|i: int| 0 <= i < ops@.len() ==> levels@[i] == jump_depth(#[trigger] ops@.take(i)),
    {
        let n = ops.len();
        proof {
            lemma_well_matched_depth(ops@);
        }
        let mut levels: Vec<usize> = Vec::new();
        let mut level: usize = 0;
        let mut i: usize = 0;
        proof {
            assert(ops@.take(0) =~= Seq::<Op>::empty());
        }
        while i < n
            invariant
                n == ops@.len(),
                0 <= i <= ops@.len(),
                level == jump_depth(ops@.take(i as int)),
                level <= i,
                levels@.len() == i,
                forall|z: int| 0 <= z <= ops@.len() ==> jump_depth(#[trigger] ops@.take(z)) >= 0,
                forall|k: int| 0 <= k < i ==> levels@[k] == jump_depth(#[trigger] ops@.take(k)),
            decreases ops@.len() - i,
        {
            levels.push(level);
            proof {
                assert(ops@.take(i + 1).drop_last() =~= ops@.take(i as int));
                assert(ops@.take(i + 1).last() == ops@[i as int]);
                assert(jump_depth(ops@.take(i + 1)) >= 0);
            }
            match ops[i] {
                Op::Jz(_) => level += 1,
                Op::Jnz(_) => level -= 1,
                _ => {},
            }
            i += 1;
        }
        levels
    }

    /// Parses a source text into a program. The brackets of the source must
    /// balance.
    pub fn parse(source: &str) -> (ops: Vec<Op>)
        requires
            parsable(source.spec_bytes(), COMPRESS),
        ensures
            ops@ == program(source.spec_bytes(), COMPRESS),
            shapes(ops@) == skeleton(tokens(source.spec_bytes()), COMPRESS),
            well_matched(ops@),
    {
        Self::parse_with_compression(source, COMPRESS)
    }
}

/// Whether the brackets of a source text balance, which `Op::parse` needs.
pub fn brackets_balanced(source: &str) -> (r: bool)
    ensures
        r == balanced(source.spec_bytes()),
{
    let bytes = source.as_bytes();
    let ghost src = bytes@;
    let mut depth: usize = 0;
    let mut i: usize = 0;
    proof {
        assert(src.take(0) =~= Seq::<u8>::empty());
    }
    while i < bytes.len()
        invariant
            bytes@ == src,
            src == source.spec_bytes(),
            0 <= i <= src.len(),
            depth <= i,
            depth == bracket_depth(src.take(i as int)),
            forall|j: int| 0 <= j <= i ==> bracket_depth(#[trigger] src.take(j)) >= 0,
        decreases src.len() - i,
    {
        proof {
            lemma_prefix_step(src, i as int);
        }
        let c = bytes[i];
        if c == 91 {
            depth += 1;
        } else if c == 93 {
            if depth == 0 {
                proof {
                    assert(bracket_depth(src.take(i + 1)) < 0);
                }
                return false;
            }
            depth -= 1;
        }
        i += 1;
    }
    proof {
        assert(src.take(src.len() as int) =~= src);
    }
    depth == 0
}

} // verus!
