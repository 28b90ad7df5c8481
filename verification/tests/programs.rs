use brainfuck::cpu::{exec_source, RunResult, Status};

fn run(source: &str, input: &[u8]) -> RunResult {
    exec_source(source, input).expect("the source holds instructions")
}

#[test]
fn test_10() {
    let source = format!("{}.[-]{}.", "+".repeat(0x31), "+".repeat(0x30));
    let r = run(source.as_str(), &[]);
    assert_eq!(r.output, b"10".to_vec());
    assert_eq!(r.status, Status::Halted);
}

#[test]
pub fn hello() {
    let r = run(
        "
        +++++ +++++             initialize counter (cell #0) to 10
        [                       use loop to set the next four cells to 70/100/30/10
            > +++++ ++              add  7 to cell #1
            > +++++ +++++           add 10 to cell #2
            > +++                   add  3 to cell #3
            > +                     add  1 to cell #4
            <<<< -                  decrement counter (cell #0)
        ]
        > ++ .                  print 'H'
        > + .                   print 'e'
        +++++ ++ .              print 'l'
        .                       print 'l'
        +++ .                   print 'o'
        > ++ .                  print ' '
        << +++++ +++++ +++++ .  print 'W'
        > .                     print 'o'
        +++ .                   print 'r'
        ----- - .               print 'l'
        ----- --- .             print 'd'
        > + .                   print '!'
        > .                     print '\n'",
        &[],
    );
    assert_eq!(r.output, b"Hello World!\n".to_vec());
    assert_eq!(r.status, Status::Halted);
}

#[test]
fn five() {
    let r = run(
        "
        +++++           +++++
            +               +
            +     +         +     +++++
        +++++    +++    +++++
        +         +     +         +++++
        +               +
        +++++           +++++.
        ",
        &[],
    );
    // 53 '+' in all: the single cell prints as '5'.
    assert_eq!(r.output, b"5".to_vec());
    assert_eq!(r.status, Status::Halted);
}

const QUINE: &str = "
        -->+++>+>+>+>+++++>++>++>->+++>++>+>>>>>>>>>>>>>>>>->++++>>>>->+++>+++>+++>+++>+
        ++>+++>+>+>>>->->>++++>+>>>>->>++++>+>+>>->->++>++>++>++++>+>++>->++>++++>+>+>++
        >++>->->++>++>++++>+>+>>>>>->>->>++++>++>++>++++>>>>>->>>>>+++>->++++>->->->+++>
        >>+>+>+++>+>++++>>+++>->>>>>->>>++++>++>++>+>+++>->++++>>->->+++>+>+++>+>++++>>>
        +++>->++++>>->->++>++++>++>++++>>++[-[->>+[>]++[<]<]>>+[>]<--[++>++++>]+[<]<<++]
        >>>[>]++++>++++[--[+>+>++++<<[-->>--<<[->-<[--->>+<<[+>+++<[+>>++<<]]]]]]>+++[>+
        ++++++++++++++<-]>--.<<<]
        ";

#[test]
fn quine() {
    let r = run(QUINE, &[]);
    assert_eq!(r.status, Status::Halted);
    // The program prints its own commands.
    let commands: Vec<u8> = QUINE.bytes().filter(|b| b"+-<>.,[]".contains(b)).collect();
    assert_eq!(r.output, commands);
}

#[test]
fn cat() {
    let r = run(",[.,]", &[]);
    assert_eq!(r.output, Vec::<u8>::new());
    assert_eq!(r.status, Status::Halted);
}

#[test]
fn cat_echoes_its_input() {
    let r = run(",[.,]", b"abc");
    assert_eq!(r.output, b"abc".to_vec());
    assert_eq!(r.status, Status::Halted);
}

#[test]
fn source_without_commands_gives_none() {
    assert!(exec_source("", &[]).is_none());
    assert!(exec_source("no commands here", &[]).is_none());
}

#[test]
fn running_off_the_memory_is_a_fault() {
    // 1024 moves right leave the head past the last cell.
    let source = format!("{}+", ">".repeat(1024));
    let r = run(source.as_str(), &[]);
    assert_eq!(r.status, Status::Fault);
    assert_eq!(r.output, Vec::<u8>::new());
}

#[test]
fn last_cell_is_usable() {
    let source = format!("{}+++.", ">".repeat(1023));
    let r = run(source.as_str(), &[]);
    assert_eq!(r.status, Status::Halted);
    assert_eq!(r.output, vec![3u8]);
}

#[test]
fn moving_left_of_the_first_cell_stays_there() {
    let r = run("<<<+.", &[]);
    assert_eq!(r.output, vec![1u8]);
}

#[test]
fn cells_wrap_around() {
    let r = run("-.+.", &[]);
    assert_eq!(r.output, vec![255u8, 0u8]);
}

#[test]
fn reading_past_the_input_gives_zero() {
    let r = run(",.,.", b"A");
    assert_eq!(r.output, vec![b'A', 0u8]);
}

#[test]
fn inc_then_dec_restores_the_cell() {
    let r = run("+++++.-----.", &[]);
    assert_eq!(r.output, vec![5u8, 0u8]);
}
