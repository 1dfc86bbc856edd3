use bfjit::interpreter::{Action, RuntimeError, State, TAPE_LEN};
use bfjit::parser::{parse, Op, ParserErrorKind, ParserOp, Token};

/// Runs `src` to completion with in-memory input, returning the outcome,
/// the bytes written and the final machine.
fn interpret(src: &str, input: &[u8]) -> (Result<(), RuntimeError>, Vec<u8>, State) {
    let ops = parse(src.to_string()).expect("well-bracketed source");
    let mut state = State::new(ops);
    let mut out = Vec::new();
    let mut pos = 0;
    loop {
        match state.run(1_000_000) {
            Ok(Action::Halted) => return (Ok(()), out, state),
            Ok(Action::Running) => {}
            Ok(Action::Output { byte, count }) => {
                for _ in 0..count {
                    out.push(byte);
                }
            }
            Ok(Action::Input { count }) => {
                let end = (pos + count as usize).min(input.len());
                let bytes = input[pos..end].to_vec();
                pos = end;
                if let Err(e) = state.feed(&bytes) {
                    return (Err(e), out, state);
                }
            }
            Err(e) => return (Err(e), out, state),
        }
    }
}

#[test]
fn token_classification() {
    assert_eq!(Token::parse('+'), Token::Inc);
    assert_eq!(Token::parse(']'), Token::JumpNonZero);
    assert_eq!(Token::parse('x'), Token::Other);
    assert_eq!(Token::parse('\n'), Token::Other);
}

#[test]
fn parse_empty_source() {
    assert_eq!(parse(String::new()).unwrap(), vec![]);
    assert_eq!(parse("no operators here".to_string()).unwrap(), vec![]);
}

#[test]
fn parse_merges_a_run() {
    assert_eq!(parse("+++".to_string()).unwrap(), vec![Op::Inc(3)]);
}

#[test]
fn parse_merge_matches_one_at_a_time() {
    let whole = parse("+++".to_string()).unwrap();
    let mut ops = vec![];
    for _ in 0..3 {
        let part = parse("+".to_string()).unwrap();
        assert_eq!(part, vec![Op::Inc(1)]);
        match ops.last_mut() {
            Some(Op::Inc(n)) => *n += 1,
            _ => ops.push(part[0]),
        }
    }
    assert_eq!(whole, ops);
}

#[test]
fn parse_caps_byte_runs_at_255() {
    let src = "+".repeat(256);
    assert_eq!(parse(src).unwrap(), vec![Op::Inc(255), Op::Inc(1)]);
    let src = ".".repeat(511);
    assert_eq!(parse(src).unwrap(), vec![Op::Output(255), Op::Output(255), Op::Output(1)]);
}

#[test]
fn parse_does_not_cap_moves() {
    let src = ">".repeat(300) + &"<".repeat(1000);
    assert_eq!(parse(src).unwrap(), vec![Op::Right(300), Op::Left(1000)]);
}

#[test]
fn parse_skips_comments_inside_runs() {
    assert_eq!(
        parse("+ + x-,,".to_string()).unwrap(),
        vec![Op::Inc(2), Op::Dec(1), Op::Input(2)]
    );
}

#[test]
fn parse_resolves_jumps() {
    assert_eq!(
        parse("+[->+<]".to_string()).unwrap(),
        vec![
            Op::Inc(1),
            Op::JumpZero(6),
            Op::Dec(1),
            Op::Right(1),
            Op::Inc(1),
            Op::Left(1),
            Op::JumpNonZero(1),
        ]
    );
}

#[test]
fn parse_empty_loop() {
    assert_eq!(
        parse("[]".to_string()).unwrap(),
        vec![Op::JumpZero(1), Op::JumpNonZero(0)]
    );
}

#[test]
fn parse_nested_loops() {
    assert_eq!(
        parse("[[]+[]]".to_string()).unwrap(),
        vec![
            Op::JumpZero(6),
            Op::JumpZero(2),
            Op::JumpNonZero(1),
            Op::Inc(1),
            Op::JumpZero(5),
            Op::JumpNonZero(4),
            Op::JumpNonZero(0),
        ]
    );
}

#[test]
fn parse_jumps_point_at_each_other() {
    let ops = parse("++[>[-]<[->+<]]>.".to_string()).unwrap();
    for (i, op) in ops.iter().enumerate() {
        match op {
            Op::JumpZero(t) => assert_eq!(ops[*t], Op::JumpNonZero(i)),
            Op::JumpNonZero(t) => assert_eq!(ops[*t], Op::JumpZero(i)),
            _ => {}
        }
    }
}

#[test]
fn parse_unmatched_close() {
    for src in ["]", "[]]", "][", "+[-]]["] {
        let e = parse(src.to_string()).unwrap_err();
        assert_eq!(e.kind, ParserErrorKind::UnmatchedClose, "{src}");
    }
}

#[test]
fn parse_unmatched_open() {
    for src in ["[", "[[]", "[]+[", "[[[]]"] {
        let e = parse(src.to_string()).unwrap_err();
        assert_eq!(e.kind, ParserErrorKind::UnmatchedOpen, "{src}");
    }
}

#[test]
fn try_from_resolves_or_fails() {
    assert_eq!(Op::try_from(ParserOp::Inc(4)).unwrap(), Op::Inc(4));
    assert_eq!(Op::try_from(ParserOp::JumpZero(Some(9))).unwrap(), Op::JumpZero(9));
    assert_eq!(Op::try_from(ParserOp::JumpNonZero(2)).unwrap(), Op::JumpNonZero(2));
    assert_eq!(
        Op::try_from(ParserOp::JumpZero(None)).unwrap_err().kind,
        ParserErrorKind::UnmatchedOpen
    );
}

#[test]
fn new_state_is_zeroed() {
    let state = State::new(vec![Op::Inc(1)]);
    assert_eq!(state.head(), 0);
    assert_eq!(state.instruction(), 0);
    assert_eq!(state.cell(0), 0);
    assert_eq!(state.cell(TAPE_LEN - 1), 0);
    assert_eq!(state.program(), &vec![Op::Inc(1)]);
}

#[test]
fn echo_one_input_byte() {
    let (r, out, _) = interpret(",.", &[65]);
    assert_eq!(r, Ok(()));
    assert_eq!(out, vec![65]);
}

#[test]
fn output_repeats_raw_byte() {
    let (r, out, _) = interpret(&("-".repeat(56) + "..."), &[]);
    assert_eq!(r, Ok(()));
    assert_eq!(out, vec![200, 200, 200]);
}

#[test]
fn input_keeps_last_byte() {
    let (r, out, state) = interpret(",,,.", &[1, 2, 3]);
    assert_eq!(r, Ok(()));
    assert_eq!(out, vec![3]);
    assert_eq!(state.cell(0), 3);
}

#[test]
fn input_exhausted() {
    let (r, _, _) = interpret(",", &[]);
    assert_eq!(r, Err(RuntimeError::InputExhausted));
    let (r, _, _) = interpret(",,,", &[7, 8]);
    assert_eq!(r, Err(RuntimeError::InputExhausted));
}

#[test]
fn feed_reports_short_input_without_moving() {
    let mut state = State::new(vec![Op::Input(2)]);
    assert_eq!(state.run(10), Ok(Action::Input { count: 2 }));
    assert_eq!(state.awaiting_input(), Some(2));
    assert_eq!(state.feed(&vec![5]), Err(RuntimeError::InputExhausted));
    assert_eq!(state.instruction(), 0);
    assert_eq!(state.feed(&vec![5, 6]), Ok(()));
    assert_eq!(state.cell(0), 6);
    assert_eq!(state.awaiting_input(), None);
    assert_eq!(state.run(10), Ok(Action::Halted));
}

#[test]
fn moving_loop_transfers_cell() {
    let (r, _, state) = interpret("+[->+<]", &[]);
    assert_eq!(r, Ok(()));
    assert_eq!(state.cell(0), 0);
    assert_eq!(state.cell(1), 1);
    assert_eq!(state.head(), 0);
}

#[test]
fn multiplying_loop() {
    let (r, _, state) = interpret("++++[->+++<]>", &[]);
    assert_eq!(r, Ok(()));
    assert_eq!(state.cell(0), 0);
    assert_eq!(state.cell(1), 12);
    assert_eq!(state.head(), 1);
}

#[test]
fn increment_wraps() {
    let (r, _, state) = interpret(&"+".repeat(256), &[]);
    assert_eq!(r, Ok(()));
    assert_eq!(state.cell(0), 0);
    let (_, _, state) = interpret(&"+".repeat(300), &[]);
    assert_eq!(state.cell(0), 44);
}

#[test]
fn decrement_wraps() {
    let (r, _, state) = interpret("-", &[]);
    assert_eq!(r, Ok(()));
    assert_eq!(state.cell(0), 255);
}

#[test]
fn move_left_of_start_underflows() {
    let (r, _, _) = interpret("<", &[]);
    assert_eq!(r, Err(RuntimeError::Underflow));
    let (r, _, _) = interpret("><<", &[]);
    assert_eq!(r, Err(RuntimeError::Underflow));
}

#[test]
fn move_past_last_cell_overflows() {
    let (r, _, state) = interpret(&">".repeat(29999), &[]);
    assert_eq!(r, Ok(()));
    assert_eq!(state.head(), 29999);
    let (r, _, _) = interpret(&">".repeat(30000), &[]);
    assert_eq!(r, Err(RuntimeError::Overflow));
    let mut state = State::new(vec![Op::Right(usize::MAX)]);
    assert_eq!(state.step(), Err(RuntimeError::Overflow));
}

#[test]
fn error_leaves_state_unchanged() {
    let mut state = State::new(vec![Op::Inc(3), Op::Left(1)]);
    assert_eq!(state.run(10), Err(RuntimeError::Underflow));
    assert_eq!(state.instruction(), 1);
    assert_eq!(state.cell(0), 3);
}

#[test]
fn straight_line_program_halts_at_end() {
    let ops = parse("+>++>+++<-".to_string()).unwrap();
    let len = ops.len();
    let mut state = State::new(ops);
    assert_eq!(state.run(len as u64 + 1), Ok(Action::Halted));
    assert_eq!(state.instruction(), len);
    assert_eq!(state.cell(0), 1);
    assert_eq!(state.cell(1), 1);
    assert_eq!(state.cell(2), 3);
    assert_eq!(state.head(), 1);
}

#[test]
fn taken_jump_lands_on_target() {
    let mut state = State::new(vec![Op::JumpZero(1), Op::JumpNonZero(0)]);
    assert_eq!(state.step(), Ok(Action::Running));
    assert_eq!(state.instruction(), 1);
    assert_eq!(state.step(), Ok(Action::Running));
    assert_eq!(state.instruction(), 2);
    assert_eq!(state.step(), Ok(Action::Halted));
}

#[test]
fn endless_loop_uses_up_fuel() {
    let mut state = State::new(parse("+[]".to_string()).unwrap());
    assert_eq!(state.run(1000), Ok(Action::Running));
    assert_eq!(state.cell(0), 1);
    assert_eq!(state.run(0), Ok(Action::Running));
}

#[test]
fn empty_program_halts_at_once() {
    let mut state = State::new(vec![]);
    assert_eq!(state.step(), Ok(Action::Halted));
    assert_eq!(state.instruction(), 0);
}

#[test]
fn hello_world() {
    let src = "++++++++[>++++[>++>+++>+++>+<<<<-]>+>+>->>+[<]<-]>>.>---.+++++++..+++.>>.<-.<.+++.------.--------.>>+.>++.";
    let (r, out, _) = interpret(src, &[]);
    assert_eq!(r, Ok(()));
    assert_eq!(out, b"Hello World!\n".to_vec());
}
