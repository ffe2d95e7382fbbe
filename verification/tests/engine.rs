use piet_core::blocks::Blocks;
use piet_core::cpu::{Direction, ExecError, OpCode, CPU};

const LR: (u8, u8, u8) = (0xff, 0xc0, 0xc0); // light red
const NR: (u8, u8, u8) = (0xff, 0x00, 0x00); // normal red
const NG: (u8, u8, u8) = (0x00, 0xff, 0x00); // normal green
const NB: (u8, u8, u8) = (0x00, 0x00, 0xff); // normal blue
const DB: (u8, u8, u8) = (0x00, 0x00, 0xc0); // dark blue
const LM: (u8, u8, u8) = (0xff, 0xc0, 0xff); // light magenta
const DM: (u8, u8, u8) = (0xc0, 0x00, 0xc0); // dark magenta
const W: (u8, u8, u8) = (0xff, 0xff, 0xff);
const K: (u8, u8, u8) = (0x00, 0x00, 0x00);

fn machine(w: i32, h: i32, cs: i32, pixels: Vec<(u8, u8, u8)>, input: Vec<Vec<u8>>) -> CPU {
    let code = Blocks::from_grid(w, h, cs, &pixels).unwrap();
    CPU::from_config(code, input)
}

#[test]
fn red_into_white_moves_without_an_opcode() {
    // a 1x1 red block next to a 1x1 white block, DP Right, CC Left: the
    // first step succeeds, applies no opcode, and advances one codel
    let mut cpu = machine(2, 1, 1, vec![NR, W], vec![]);
    assert!(cpu.try_step());
    assert_eq!(cpu.pc, (1, 0));
    assert!(cpu.stack.is_empty());
    assert!(cpu.error.is_none());
    assert!(cpu.output.is_none());
    assert!(cpu.last_cmd.is_none());
    assert_eq!(cpu.dp, Direction::Right);
    assert_eq!(cpu.cc, Direction::Left);
}

#[test]
fn push_pushes_the_block_codel_count() {
    // a light-red block of 4 codels entering a normal-red block decodes to
    // PUSH and pushes 4
    let pixels = vec![
        LR, LR, NR, //
        LR, LR, NR,
    ];
    let mut cpu = machine(3, 2, 1, pixels, vec![]);
    assert!(cpu.try_step());
    assert_eq!(cpu.stack, vec![4]);
    assert_eq!(cpu.last_cmd, Some(OpCode::PUSH));
    assert_eq!(cpu.pc, (2, 0));
}

#[test]
fn divide_by_zero_restores_the_operands() {
    // stack [2, 0] with 0 on top; red to green decodes to DIV
    let mut cpu = machine(2, 1, 1, vec![NR, NG], vec![]);
    cpu.stack = vec![2, 0];
    assert!(cpu.try_step());
    assert_eq!(cpu.error, Some(ExecError::DivideByZero));
    assert_eq!(cpu.stack, vec![2, 0]);
    assert_eq!(cpu.last_cmd, Some(OpCode::DIV));
}

#[test]
fn isolated_block_halts_after_eight_attempts() {
    // a single block with nowhere to go: all 4 DP x 2 CC combinations fail
    // and the program terminates, leaving DP and CC back where they began
    let mut cpu = machine(1, 1, 1, vec![NR], vec![]);
    assert!(!cpu.try_step());
    assert_eq!(cpu.pc, (0, 0));
    assert_eq!(cpu.dp, Direction::Right);
    assert_eq!(cpu.cc, Direction::Left);
    assert!(cpu.stack.is_empty());
}

#[test]
fn block_walled_in_by_black_halts() {
    let pixels = vec![
        K, K, K, //
        K, NR, K, //
        K, K, K,
    ];
    let mut cpu = machine(3, 3, 1, pixels, vec![]);
    assert!(!cpu.try_step());
    assert_eq!(cpu.pc, (0, 0));
}

#[test]
fn white_block_advances_one_codel_without_an_opcode() {
    // stepping out of a white block moves one codel and executes nothing
    let mut cpu = machine(3, 1, 1, vec![NR, W, NG], vec![]);
    cpu.stack = vec![9];
    assert!(cpu.try_step());
    assert_eq!(cpu.pc, (1, 0));
    assert!(cpu.try_step());
    assert_eq!(cpu.pc, (2, 0));
    assert!(cpu.last_cmd.is_none());
    assert_eq!(cpu.stack, vec![9]);
}

#[test]
fn chooser_left_picks_the_smallest_row_moving_right() {
    // the far edge has two codels; with DP Right and CC Left the machine
    // exits from the smaller y, whose neighbor decodes to PUSH (the other
    // neighbor would decode to DUP and underflow)
    let pixels = vec![
        LR, LR, NR, //
        LR, LR, NB,
    ];
    let mut cpu = machine(3, 2, 1, pixels, vec![]);
    assert!(cpu.try_step());
    assert_eq!(cpu.pc, (2, 0));
    assert_eq!(cpu.last_cmd, Some(OpCode::PUSH));
    assert_eq!(cpu.stack, vec![4]);
    assert!(cpu.error.is_none());
}

#[test]
fn roll_rotates_the_top_three_once() {
    // ROLL with count 1 and depth 3 on [a, b, c] (c on top) moves the top
    // value below the other two: [c, a, b]
    let mut cpu = machine(2, 1, 1, vec![LR, NB], vec![]);
    cpu.stack = vec![10, 20, 30, 3, 1];
    assert!(cpu.try_step());
    assert_eq!(cpu.stack, vec![30, 10, 20]);
    assert_eq!(cpu.last_cmd, Some(OpCode::ROLL));
    assert!(cpu.error.is_none());
}

#[test]
fn roll_then_negated_roll_restores_the_order() {
    // rolling by 1 at depth 3 and then by -1 (taken modulo 3, so by 2)
    // restores the original order and preserves the length
    let mut first = machine(2, 1, 1, vec![LR, NB], vec![]);
    first.stack = vec![10, 20, 30, 3, 1];
    assert!(first.try_step());
    assert_eq!(first.stack.len(), 3);
    let mut rolled_once = first.stack.clone();
    rolled_once.push(3);
    rolled_once.push(2);
    let mut second = machine(2, 1, 1, vec![LR, NB], vec![]);
    second.stack = rolled_once;
    assert!(second.try_step());
    assert_eq!(second.stack, vec![10, 20, 30]);
}

#[test]
fn roll_rejects_a_negative_count() {
    let mut cpu = machine(2, 1, 1, vec![LR, NB], vec![]);
    cpu.stack = vec![10, 20, 30, 3, -1];
    assert!(cpu.try_step());
    assert_eq!(cpu.error, Some(ExecError::InvalidRoll));
    assert_eq!(cpu.stack, vec![10, 20, 30, 3, -1]);
}

#[test]
fn roll_rejects_a_depth_beyond_the_stack() {
    let mut cpu = machine(2, 1, 1, vec![LR, NB], vec![]);
    cpu.stack = vec![10, 4, 1];
    assert!(cpu.try_step());
    assert_eq!(cpu.error, Some(ExecError::InvalidRoll));
    assert_eq!(cpu.stack, vec![10, 4, 1]);
}

#[test]
fn deterministic_replay_gives_the_same_trace() {
    // the same image and scripted input always produce the same output
    // sequence, the same errors, and the same per-round continue flags
    let pixels = vec![LR, NR, DM];
    let run = || {
        let mut cpu = machine(3, 1, 1, pixels.clone(), vec![b"9".to_vec()]);
        let mut trace: Vec<(bool, Option<String>, Option<ExecError>, Vec<i32>)> = Vec::new();
        for _ in 0..20 {
            let cont = cpu.try_step();
            trace.push((cont, cpu.output.clone(), cpu.error, cpu.stack.clone()));
        }
        trace
    };
    let t1 = run();
    let t2 = run();
    assert_eq!(t1, t2);
    assert_eq!(t1[1].1.as_deref(), Some("1"));
}

#[test]
fn deterministic_halt_count_on_a_terminating_program() {
    // a program that terminates does so after the same number of rounds on
    // every run
    let run = || {
        let mut cpu = machine(1, 1, 1, vec![NR], vec![]);
        let mut rounds = 0;
        while cpu.try_step() {
            rounds += 1;
            assert!(rounds <= 100);
        }
        rounds
    };
    assert_eq!(run(), run());
}

#[test]
fn inpn_parses_a_scripted_line() {
    let mut cpu = machine(2, 1, 1, vec![LR, DB], vec![b" 42 \n".to_vec()]);
    assert!(cpu.try_step());
    assert_eq!(cpu.stack, vec![42]);
    assert_eq!(cpu.last_cmd, Some(OpCode::INPN));
    assert!(cpu.error.is_none());
}

#[test]
fn inpn_reports_unparseable_input() {
    let mut cpu = machine(2, 1, 1, vec![LR, DB], vec![b"forty".to_vec()]);
    assert!(cpu.try_step());
    assert_eq!(cpu.error, Some(ExecError::InputParseError));
    assert!(cpu.stack.is_empty());
}

#[test]
fn inpn_reports_missing_input() {
    let mut cpu = machine(2, 1, 1, vec![LR, DB], vec![]);
    assert!(cpu.try_step());
    assert_eq!(cpu.error, Some(ExecError::InputParseError));
    assert!(cpu.stack.is_empty());
}

#[test]
fn outn_emits_the_decimal_string() {
    let mut cpu = machine(2, 1, 1, vec![NR, DM], vec![]);
    cpu.stack = vec![-45];
    assert!(cpu.try_step());
    assert_eq!(cpu.output.as_deref(), Some("-45"));
    assert!(cpu.stack.is_empty());
}

#[test]
fn outc_emits_the_character_of_the_low_byte() {
    let mut cpu = machine(2, 1, 1, vec![NR, LM], vec![]);
    cpu.stack = vec![65];
    assert!(cpu.try_step());
    assert_eq!(cpu.output.as_deref(), Some("A"));
}

#[test]
fn stack_underflow_leaves_the_stack_alone() {
    // ADD needs two values; red to normal yellow decodes to ADD
    let ny = (0xff, 0xff, 0x00);
    let mut cpu = machine(2, 1, 1, vec![NR, ny], vec![]);
    cpu.stack = vec![7];
    assert!(cpu.try_step());
    assert_eq!(cpu.error, Some(ExecError::StackUnderflow));
    assert_eq!(cpu.stack, vec![7]);
}

#[test]
fn get_info_reports_counts() {
    let cpu = machine(2, 1, 1, vec![NR, W], vec![]);
    assert_eq!(
        cpu.get_info(),
        "Total number of blocks: 2\nCodel size: 1\n# of codels: 2\n"
    );
}
