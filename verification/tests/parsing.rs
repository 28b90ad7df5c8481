use brainfuck::ops::{brackets_balanced, Op, COMPRESS};
use brainfuck::stack::Stack;

#[test]
fn parse_maps_each_command() {
    let ops = Op::parse("+-<>.,");
    assert_eq!(
        ops,
        vec![Op::Inc(1), Op::Dec(1), Op::Left(1), Op::Right(1), Op::Out(1), Op::In(1)]
    );
}

#[test]
fn parse_ignores_other_text() {
    let ops = Op::parse("a+ b\n-é→ ");
    assert_eq!(ops, vec![Op::Inc(1), Op::Dec(1)]);
    assert_eq!(Op::parse("comment only"), Vec::<Op>::new());
}

#[test]
fn parse_resolves_a_loop() {
    assert_eq!(Op::parse("[+]"), vec![Op::Jz(2), Op::Inc(1), Op::Jnz(0)]);
}

#[test]
fn parse_resolves_nested_and_sibling_loops() {
    assert_eq!(
        Op::parse("[[]][]"),
        vec![Op::Jz(3), Op::Jz(2), Op::Jnz(1), Op::Jnz(0), Op::Jz(5), Op::Jnz(4)]
    );
}

#[test]
fn parse_does_not_merge_by_default() {
    assert!(!COMPRESS);
    assert_eq!(Op::parse("++"), vec![Op::Inc(1), Op::Inc(1)]);
}

#[test]
fn compression_merges_runs() {
    assert_eq!(
        Op::parse_with_compression("+++--[>>]", true),
        vec![Op::Inc(3), Op::Dec(2), Op::Jz(4), Op::Right(2), Op::Jnz(2)]
    );
}

#[test]
fn compression_keeps_jumps_apart() {
    assert_eq!(
        Op::parse_with_compression("[[]]", true),
        vec![Op::Jz(3), Op::Jz(2), Op::Jnz(1), Op::Jnz(0)]
    );
}

#[test]
fn compression_restarts_after_other_text_and_jumps() {
    assert_eq!(
        Op::parse_with_compression("+ +[+]+", true),
        vec![Op::Inc(2), Op::Jz(3), Op::Inc(1), Op::Jnz(1), Op::Inc(1)]
    );
}

#[test]
fn compressed_runs_expand_to_the_commands() {
    let source = "++>>>-<[.,,]";
    let plain = Op::parse_with_compression(source, false);
    let merged = Op::parse_with_compression(source, true);
    let mut expanded = Vec::new();
    for op in merged {
        match op {
            Op::Inc(n) => (0..n).for_each(|_| expanded.push(Op::Inc(1))),
            Op::Dec(n) => (0..n).for_each(|_| expanded.push(Op::Dec(1))),
            Op::Left(n) => (0..n).for_each(|_| expanded.push(Op::Left(1))),
            Op::Right(n) => (0..n).for_each(|_| expanded.push(Op::Right(1))),
            Op::Out(n) => (0..n).for_each(|_| expanded.push(Op::Out(1))),
            Op::In(n) => (0..n).for_each(|_| expanded.push(Op::In(1))),
            Op::Jz(_) => expanded.push(Op::Jz(0)),
            Op::Jnz(_) => expanded.push(Op::Jnz(0)),
        }
    }
    let shapes: Vec<Op> = plain
        .into_iter()
        .map(|op| match op {
            Op::Jz(_) => Op::Jz(0),
            Op::Jnz(_) => Op::Jnz(0),
            other => other,
        })
        .collect();
    assert_eq!(expanded, shapes);
}

#[test]
fn jumps_name_each_other() {
    let ops = Op::parse("+[>[-]<[>+<-]]");
    for (i, op) in ops.iter().enumerate() {
        match op {
            Op::Jz(j) => {
                assert!(*j > i);
                assert_eq!(ops[*j], Op::Jnz(i));
            }
            Op::Jnz(j) => {
                assert!(*j < i);
                assert_eq!(ops[*j], Op::Jz(i));
            }
            _ => {}
        }
    }
}

#[test]
fn balanced_brackets() {
    assert!(brackets_balanced(""));
    assert!(brackets_balanced("[]"));
    assert!(brackets_balanced("a[b[c]d]e"));
    assert!(!brackets_balanced("["));
    assert!(!brackets_balanced("]"));
    assert!(!brackets_balanced("]["));
    assert!(!brackets_balanced("[]]["));
}

#[test]
fn jumps_constructor() {
    let j = brainfuck::ops::Jumps::new(3, 7);
    assert_eq!(j.start, 3);
    assert_eq!(j.end, 7);
}

#[test]
fn stack_is_last_in_first_out() {
    let mut s: Stack<u32> = Stack::new();
    assert_eq!(s.len(), 0);
    s.push(1);
    s.push(2);
    assert_eq!(s.len(), 2);
    assert_eq!(*s.peek(), 2);
    assert_eq!(s.pop(), 2);
    assert_eq!(s.pop(), 1);
    assert_eq!(s.len(), 0);
}

#[test]
fn stack_insert_first_goes_to_the_bottom() {
    let mut s: Stack<u32> = Stack::new();
    s.push(1);
    s.insert_first(0);
    s.push(2);
    assert_eq!(s.len(), 3);
    assert_eq!(s.pop(), 2);
    assert_eq!(s.pop(), 1);
    assert_eq!(*s.peek(), 0);
    assert_eq!(s.pop(), 0);
}

#[test]
fn dump_levels_follow_loop_depth() {
    let ops = Op::parse("+[>[-]<]-");
    assert_eq!(Op::dump_levels(&ops), vec![0, 0, 1, 1, 2, 2, 1, 1, 0]);
}

#[test]
fn dump_levels_of_empty_program() {
    assert_eq!(Op::dump_levels(&[]), Vec::<usize>::new());
}
