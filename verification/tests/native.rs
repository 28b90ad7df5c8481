use brainfuck::cpu::Cpu;
use brainfuck::jit::Backpatch;
use brainfuck::ops::Op;

const LDRB: [u8; 4] = [0x08, 0x00, 0x40, 0x39];
const STRB: [u8; 4] = [0x08, 0x00, 0x00, 0x39];
const RET: [u8; 4] = [0xc0, 0x03, 0x5f, 0xd6];

fn compile(ops: Vec<Op>) -> Vec<u8> {
    let cpu = Cpu::new(ops, true);
    assert!(cpu.jit_supported());
    cpu.compile_jit()
}

#[test]
fn compile_inc() {
    let mut expected = Vec::new();
    expected.extend_from_slice(&LDRB);
    // add w8, w8, #1
    expected.extend_from_slice(&[0x08, 0x05, 0x00, 0x11]);
    expected.extend_from_slice(&STRB);
    expected.extend_from_slice(&RET);
    assert_eq!(compile(vec![Op::Inc(1)]), expected);
}

#[test]
fn compile_dec_masks_operand() {
    let mut expected = Vec::new();
    expected.extend_from_slice(&LDRB);
    // sub w8, w8, #2 (258 mod 256)
    expected.extend_from_slice(&[0x08, 0x09, 0x00, 0x51]);
    expected.extend_from_slice(&STRB);
    expected.extend_from_slice(&RET);
    assert_eq!(compile(vec![Op::Dec(258)]), expected);
}

#[test]
fn compile_moves() {
    let code = compile(vec![Op::Right(3), Op::Left(255)]);
    // add x0, x0, #3 ; sub x0, x0, #255 ; ret
    assert_eq!(
        code,
        vec![0x00, 0x0c, 0x00, 0x91, 0x00, 0xfc, 0x03, 0xd1, 0xc0, 0x03, 0x5f, 0xd6]
    );
}

#[test]
fn compile_io_repeats_blocks() {
    let code = compile(vec![Op::Out(2), Op::In(1)]);
    assert_eq!(code.len(), 2 * 28 + 40 + 4);
    assert_eq!(&code[0..4], &[0xe1, 0x03, 0x00, 0xaa]);
    assert_eq!(&code[28..32], &[0xe1, 0x03, 0x00, 0xaa]);
    assert_eq!(&code[56..60], &[0xe4, 0x03, 0x00, 0xaa]);
    assert_eq!(&code[96..100], &RET);
}

#[test]
fn compile_loop_patches_both_branches() {
    let ops = Op::parse("[-]");
    assert_eq!(ops, vec![Op::Jz(2), Op::Dec(1), Op::Jnz(0)]);
    let code = compile(ops);
    let mut expected = Vec::new();
    expected.extend_from_slice(&LDRB);
    // cbz w8, +24 bytes (to the ret)
    expected.extend_from_slice(&[0xc8, 0x00, 0x00, 0x34]);
    expected.extend_from_slice(&LDRB);
    expected.extend_from_slice(&[0x08, 0x05, 0x00, 0x51]);
    expected.extend_from_slice(&STRB);
    expected.extend_from_slice(&LDRB);
    // cbnz w8, -16 bytes (to the dec)
    expected.extend_from_slice(&[0x88, 0xff, 0xff, 0x35]);
    expected.extend_from_slice(&RET);
    assert_eq!(code, expected);
}

#[test]
fn jit_refuses_large_moves() {
    assert!(!Cpu::new(vec![Op::Left(256)], true).jit_supported());
    assert!(!Cpu::new(vec![Op::Right(300)], true).jit_supported());
    assert!(Cpu::new(vec![Op::Right(255)], true).jit_supported());
}

#[test]
fn jit_refuses_far_branches() {
    // 10000 outputs take 280000 bytes, more than a branch may span.
    let far = vec![Op::Jz(2), Op::Out(10000), Op::Jnz(0)];
    assert!(!Cpu::new(far, true).jit_supported());
    let near = vec![Op::Jz(2), Op::Out(9000), Op::Jnz(0)];
    assert!(Cpu::new(near, true).jit_supported());
}

#[test]
fn jit_refuses_jumps_out_of_the_program() {
    assert!(!Cpu::new(vec![Op::Jz(1)], true).jit_supported());
    assert!(Cpu::new(vec![Op::Jz(0)], true).jit_supported());
}

#[test]
fn emitters_record_branches() {
    let mut buffer = vec![0u8; 4];
    let mut backpatches: Vec<Backpatch> = Vec::new();
    Op::jz(&mut buffer, 5, &mut backpatches);
    Op::jnz(&mut buffer, 1, &mut backpatches);
    assert_eq!(buffer.len(), 20);
    assert_eq!(backpatches.len(), 2);
    assert_eq!(backpatches[0].operand_byte_addr, 8);
    assert_eq!(backpatches[0].src_byte_addr, 8);
    assert_eq!(backpatches[0].dst_op_index, 5);
    assert_eq!(backpatches[0].origin, Op::Jz(5));
    assert_eq!(backpatches[1].operand_byte_addr, 16);
    assert_eq!(backpatches[1].origin, Op::Jnz(1));
}

#[test]
fn push_u32_is_little_endian() {
    let mut buffer = Vec::new();
    brainfuck::jit::push_u32(&mut buffer, 0x11223344);
    assert_eq!(buffer, vec![0x44, 0x33, 0x22, 0x11]);
}

#[test]
fn emitter_blocks() {
    let mut b = Vec::new();
    Op::ret(&mut b);
    assert_eq!(b, RET.to_vec());
    let mut b = Vec::new();
    Op::out(&mut b);
    assert_eq!(b.len(), 28);
    let mut b = Vec::new();
    Op::inp(&mut b);
    assert_eq!(b.len(), 40);
    let mut b = Vec::new();
    Op::inc(&mut b, 1);
    Op::dec(&mut b, 1);
    Op::left(&mut b, 1);
    Op::right(&mut b, 1);
    assert_eq!(b.len(), 32);
}
