use brainfuck::cpu::{Cpu, Effect, Status};
use brainfuck::ops::Op;

#[test]
fn new_machine_starts_at_first_instruction() {
    let cpu = Cpu::new(vec![Op::Out(1)], true);
    assert!(cpu.jit());
    assert_eq!(cpu.ops(), &vec![Op::Out(1)]);
    let mut cpu = Cpu::new(vec![Op::Out(1)], false);
    assert!(!cpu.jit());
    assert!(cpu.can_step());
    // every cell starts at zero
    assert_eq!(cpu.step(), (Effect::Output { byte: 0, count: 1 }, false));
}

#[test]
fn step_reports_output_and_input() {
    let mut cpu = Cpu::new(vec![Op::Inc(3), Op::Out(2), Op::In(2), Op::Out(1)], false);
    assert_eq!(cpu.step(), (Effect::Nothing, true));
    assert_eq!(cpu.step(), (Effect::Output { byte: 3, count: 2 }, true));
    assert_eq!(cpu.step(), (Effect::Input { count: 2 }, true));
    cpu.write_cell(b'x');
    cpu.write_cell(b'y');
    assert_eq!(cpu.step(), (Effect::Output { byte: b'y', count: 1 }, false));
}

#[test]
fn inc_and_dec_take_operands_mod_256() {
    let mut cpu = Cpu::new(vec![Op::Inc(257), Op::Out(1), Op::Dec(3), Op::Out(1)], false);
    cpu.step();
    assert_eq!(cpu.step().0, Effect::Output { byte: 1, count: 1 });
    cpu.step();
    assert_eq!(cpu.step().0, Effect::Output { byte: 254, count: 1 });
}

#[test]
fn left_saturates_right_moves() {
    let mut cpu = Cpu::new(vec![Op::Right(2), Op::Inc(1), Op::Left(5), Op::Out(1)], false);
    cpu.step();
    cpu.step();
    cpu.step();
    // back on cell 0, which is still 0
    assert_eq!(cpu.step().0, Effect::Output { byte: 0, count: 1 });
}

#[test]
fn jz_skips_the_loop_on_zero() {
    // [+] on a zero cell jumps past the Jnz: the program ends.
    let mut cpu = Cpu::new(vec![Op::Jz(2), Op::Inc(1), Op::Jnz(0)], false);
    assert_eq!(cpu.step(), (Effect::Nothing, false));
}

#[test]
fn jnz_jumps_back_on_non_zero() {
    let mut cpu = Cpu::new(vec![Op::Inc(2), Op::Jz(3), Op::Dec(1), Op::Jnz(1), Op::Out(1)], false);
    let mut outputs = Vec::new();
    let mut steps = 0;
    loop {
        steps += 1;
        let (effect, running) = cpu.step();
        if let Effect::Output { byte, .. } = effect {
            outputs.push(byte);
        }
        if !running {
            break;
        }
    }
    assert_eq!(outputs, vec![0]);
    // Inc, Jz, then twice Dec and Jnz, then Out
    assert_eq!(steps, 7);
}

#[test]
fn a_step_off_the_memory_is_refused() {
    let mut cpu = Cpu::new(vec![Op::Right(1024), Op::Inc(1)], false);
    assert!(cpu.can_step());
    cpu.step();
    assert!(!cpu.can_step());
}

#[test]
fn a_jump_out_of_the_program_is_refused() {
    let mut cpu = Cpu::new(vec![Op::Inc(1), Op::Jnz(5)], false);
    cpu.step();
    assert_eq!(cpu.step(), (Effect::Nothing, true));
    assert!(!cpu.can_step());
}

#[test]
fn run_stops_when_fuel_runs_out() {
    let mut cpu = Cpu::new(vec![Op::Inc(1), Op::Jz(3), Op::Out(1), Op::Jnz(1)], false);
    let r = cpu.run(&[], 10);
    assert_eq!(r.status, Status::OutOfFuel);
    // Inc, then Jz, Out, Jnz, Out, Jnz, Out, Jnz, Out, Jnz
    assert_eq!(r.output, vec![1, 1, 1, 1]);
}

#[test]
fn run_reports_a_fault() {
    let mut cpu = Cpu::new(vec![Op::Right(2000), Op::Out(1)], false);
    let r = cpu.run(&[], 10);
    assert_eq!(r.status, Status::Fault);
    assert_eq!(r.output, Vec::<u8>::new());
}

#[test]
fn run_reads_input_and_repeats_output() {
    let mut cpu = Cpu::new(vec![Op::In(2), Op::Out(3)], false);
    let r = cpu.run(b"pq", 10);
    assert_eq!(r.status, Status::Halted);
    assert_eq!(r.output, b"qqq".to_vec());
}
